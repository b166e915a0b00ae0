//! Probing remotes.
use crate::forwarder::config::{InitialProbingConfig, ProbingConfig};
use crate::forwarder::metrics::{
    one_more, record_ip_probe_failed, record_ip_probe_success, record_probe_duration, Metric,
    MetricUpdate,
};
use crate::net::IpAddr;
use crate::sort::{is_ranking, rank, ranking_reaches_all};
use crate::time::Duration;
use vstd::prelude::*;

verus! {

/// A remote that may be probed.
#[derive(Clone, Copy, Debug, PartialEq, Eq, Structural)]
pub struct ProbeTarget {
    pub ip: IpAddr,
    pub port: u16,
    /// When it was last probed, in nanoseconds on a clock that never goes back.
    pub last_probed: Option<i128>,
}

/// The nanoseconds of an hour: a remote that was never probed counts as probed
/// an hour ago.
pub const NEVER_PROBED_AGE: i128 = 3_600_000_000_000;

/// When a remote counts as last probed.
pub open spec fn probe_time(target: ProbeTarget, now: int) -> int {
    match target.last_probed {
        Some(t) => t as int,
        None => now - NEVER_PROBED_AGE,
    }
}

/// What sorts the remotes that have waited longest first.
pub open spec fn wait_keys(targets: Seq<ProbeTarget>, now: int) -> Seq<(i64, i128)> {
    targets.map_values(|t: ProbeTarget| (0i64, probe_time(t, now) as i128))
}

/// Whether a choice of remotes is all of them where there are no more than
/// wanted, else those that have waited longest, in that order.
pub open spec fn are_probe_candidates(
    chosen: Seq<ProbeTarget>,
    all: Seq<ProbeTarget>,
    now: int,
    count: int,
) -> bool {
    if all.len() <= count {
        chosen == all
    } else {
        exists|order: Seq<usize>| #[trigger]
            is_ranking(order, wait_keys(all, now)) && chosen == Seq::new(
                count as nat,
                |i: int| all[order[i] as int],
            )
    }
}

/// Chooses the remotes to probe next.
pub fn select_probe_candidates(all: &Vec<ProbeTarget>, now: i128, count: usize) -> (chosen: Vec<
    ProbeTarget,
>)
    requires
        i128::MIN + NEVER_PROBED_AGE <= now,
    ensures
        are_probe_candidates(chosen@, all@, now as int, count as int),
{
    let mut chosen: Vec<ProbeTarget> = Vec::new();
    if all.len() <= count {
        let mut n: usize = 0;
        while n < all.len()
            invariant
                n <= all@.len(),
                chosen@ =~= all@.take(n as int),
            decreases all@.len() - n,
        {
            chosen.push(all[n]);
            n = n + 1;
        }
        assert(chosen@ =~= all@);
        return chosen;
    }
    let mut keys: Vec<(i64, i128)> = Vec::new();
    let mut i: usize = 0;
    while i < all.len()
        invariant
            i <= all@.len(),
            i128::MIN + NEVER_PROBED_AGE <= now,
            keys@ =~= wait_keys(all@, now as int).take(i as int),
        decreases all@.len() - i,
    {
        let time: i128 = match all[i].last_probed {
            Some(t) => t,
            None => now - NEVER_PROBED_AGE,
        };
        keys.push((0, time));
        i = i + 1;
    }
    assert(keys@ =~= wait_keys(all@, now as int));
    let order: Vec<usize> = rank(&keys);
    let mut k: usize = 0;
    while k < count
        invariant
            k <= count < all@.len(),
            order@.len() == all@.len(),
            is_ranking(order@, wait_keys(all@, now as int)),
            chosen@.len() == k,
            forall|j: int| 0 <= j < k ==> #[trigger] chosen@[j] == all@[order@[j] as int],
        decreases count - k,
    {
        assert(order@[k as int] < wait_keys(all@, now as int).len());
        chosen.push(all[order[k]]);
        k = k + 1;
    }
    assert(chosen@ =~= Seq::new(count as nat, |j: int| all@[order@[j] as int]));
    chosen
}

/// What happens before the first connections.
#[derive(Clone, Copy, Debug, PartialEq, Eq, Structural)]
pub enum InitialPlan {
    /// Probing at the start is off.
    Disabled,
    /// There is nothing to probe.
    Nothing,
    /// Probe every remote, this many at once.
    Probe { max_concurrent: usize },
}

/// How the remotes are probed at the start.
pub open spec fn initial_plan(initial: Option<InitialProbingConfig>, total: usize) -> InitialPlan {
    match initial {
        Some(config) if config.enabled => if total == 0 {
            InitialPlan::Nothing
        } else {
            (InitialPlan::Probe {
                max_concurrent: if config.max_concurrency <= total {
                    config.max_concurrency
                } else {
                    total
                },
            })
        },
        _ => InitialPlan::Disabled,
    }
}

/// Decides how the remotes are probed at the start.
pub fn plan_initial_probing(initial: Option<InitialProbingConfig>, total: usize) -> (plan:
    InitialPlan)
    ensures
        plan == initial_plan(initial, total),
{
    match initial {
        Some(config) => {
            if !config.enabled {
                return InitialPlan::Disabled;
            }
            if total == 0 {
                return InitialPlan::Nothing;
            }
            InitialPlan::Probe {
                max_concurrent: if config.max_concurrency <= total {
                    config.max_concurrency
                } else {
                    total
                },
            }
        },
        None => InitialPlan::Disabled,
    }
}

/// Whether progress is shown after so many of a total: at each whole tenth.
pub open spec fn is_shown(completed: usize, total: usize) -> bool {
    completed as int % (if total / 10 >= 1 {
        total as int / 10
    } else {
        1
    }) == 0
}

/// Whether the progress of probing at the start is shown: after each tenth of
/// the remotes, or after each remote where there are fewer than ten.
pub fn shows_progress(completed: usize, total: usize) -> (b: bool)
    ensures
        b == is_shown(completed, total),
{
    let step: usize = if total / 10 >= 1 {
        total / 10
    } else {
        1
    };
    completed % step == 0
}

/// How long a probe at the start may take.
pub open spec fn timeout_at_start(config: ProbingConfig) -> Duration {
    match config.initial {
        Some(initial) => match initial.timeout {
            Some(timeout) => timeout,
            None => config.timeout,
        },
        None => config.timeout,
    }
}

/// How long a probe at the start may take: as set for the start, else as set
/// for all probes.
pub fn initial_timeout(config: &ProbingConfig) -> (d: Duration)
    ensures
        d == timeout_at_start(*config),
{
    match config.initial {
        Some(initial) => match initial.timeout {
            Some(timeout) => timeout,
            None => config.timeout,
        },
        None => config.timeout,
    }
}

/// Whether the scores are shown in detail: in every tenth round of probing.
pub fn shows_details(cycle: u64) -> (b: bool)
    ensures
        b == (cycle % 10 == 0),
{
    cycle % 10 == 0
}

/// How a probe ended.
#[derive(Clone, Copy, Debug, PartialEq, Eq, Structural)]
pub enum ProbeOutcome {
    Connected(Duration),
    Failed,
    TimedOut,
}

/// What a probe means for the score and the metrics.
#[derive(Debug)]
pub struct ProbeReport {
    pub success: bool,
    pub latency: Option<Duration>,
    pub updates: Vec<MetricUpdate>,
}

/// Judges a probe.
pub fn process_probe_result(outcome: ProbeOutcome, ip: &str) -> (r: ProbeReport)
    ensures
        match outcome {
            ProbeOutcome::Connected(span) => r.success && r.latency == Some(span) && r.updates@
                == seq![
                one_more(Metric::IpProbesSuccessful),
                MetricUpdate::Time { metric: Metric::ProbeDuration, span },
            ],
            _ => !r.success && r.latency is None && r.updates@ == seq![
                one_more(Metric::IpProbesFailed),
            ],
        },
        r.success <==> outcome is Connected,
        r.success <==> r.latency is Some,
        outcome matches ProbeOutcome::Connected(span) ==> r.latency == Some(span),
{
    match outcome {
        ProbeOutcome::Connected(span) => {
            let mut updates: Vec<MetricUpdate> = record_ip_probe_success(ip);
            let mut timing: Vec<MetricUpdate> = record_probe_duration(span);
            updates.append(&mut timing);
            assert(updates@ =~= seq![
                one_more(Metric::IpProbesSuccessful),
                MetricUpdate::Time { metric: Metric::ProbeDuration, span },
            ]);
            ProbeReport { success: true, latency: Some(span), updates }
        },
        ProbeOutcome::Failed | ProbeOutcome::TimedOut => ProbeReport {
            success: false,
            latency: None,
            updates: record_ip_probe_failed(ip),
        },
    }
}

/// As many remotes are chosen as are wanted, or all where there are fewer, and
/// each is one of them.
pub proof fn candidates_are_enough(
    chosen: Seq<ProbeTarget>,
    all: Seq<ProbeTarget>,
    now: int,
    count: nat,
)
    requires
        are_probe_candidates(chosen, all, now, count as int),
    ensures
        chosen.len() == if all.len() <= count {
            all.len()
        } else {
            count
        },
        forall|i: int| 0 <= i < chosen.len() ==> all.contains(#[trigger] chosen[i]),
{
    if all.len() > count {
        let order = choose|order: Seq<usize>| #[trigger]
            is_ranking(order, wait_keys(all, now)) && chosen == Seq::new(
                count,
                |i: int| all[order[i] as int],
            );
        assert forall|i: int| 0 <= i < chosen.len() implies all.contains(#[trigger] chosen[i]) by {
            assert(order[i] < wait_keys(all, now).len());
            assert(all[order[i] as int] == chosen[i]);
        }
    }
}

/// Where more remotes are there than wanted, those are chosen that have waited
/// longest, in that order, one never probed counting as probed an hour ago: no
/// remote that is left out was probed before one that is chosen, and of two
/// probed at the same time the one listed first comes first. Nothing else of a
/// remote counts.
pub proof fn longest_unprobed_come_first(
    chosen: Seq<ProbeTarget>,
    all: Seq<ProbeTarget>,
    now: int,
    count: nat,
)
    requires
        are_probe_candidates(chosen, all, now, count as int),
        all.len() > count,
        i128::MIN + 3_600_000_000_000 <= now <= i128::MAX,
    ensures
        exists|places: Seq<int>| #[trigger]
            are_longest_unprobed(places, all, now) && places.len() == count && chosen
                == places.map_values(|p: int| all[p]),
{
    let order = choose|order: Seq<usize>| #[trigger]
        is_ranking(order, wait_keys(all, now)) && chosen == Seq::new(
            count,
            |i: int| all[order[i] as int],
        );
    let keys = wait_keys(all, now);
    let places = Seq::new(count, |i: int| order[i] as int);
    assert(chosen =~= places.map_values(|p: int| all[p]));
    assert forall|i: int| 0 <= i < places.len() implies 0 <= #[trigger] places[i] < all.len() by {
        assert(order[i] < keys.len());
    }
    assert forall|i: int, j: int| 0 <= i < j < places.len() implies #[trigger] places[i]
        != #[trigger] places[j] && (waits_since(all, places[i], now) < waits_since(
        all,
        places[j],
        now,
    ) || (waits_since(all, places[i], now) == waits_since(all, places[j], now) && places[i]
        < places[j])) by {
        assert(order[i] != order[j]);
        assert(crate::sort::key_at_most(keys[order[i] as int], keys[order[j] as int]));
    }
    assert forall|out: int, i: int|
        0 <= out < all.len() && !places.contains(out) && 0 <= i < places.len() implies waits_since(
        all,
        #[trigger] places[i],
        now,
    ) <= #[trigger] waits_since(all, out, now) by {
        ranking_reaches_all(order, keys, out);
        let a = choose|a: int| 0 <= a < order.len() && #[trigger] order[a] == out;
        if a < places.len() {
            assert(places[a] == out);
        }
        assert(order[i] != order[a]);
        assert(crate::sort::key_at_most(keys[order[i] as int], keys[order[a] as int]));
    }
    assert(are_longest_unprobed(places, all, now));
}

/// Since when the remote at a place waits for a probe.
pub open spec fn waits_since(all: Seq<ProbeTarget>, place: int, now: int) -> int {
    if all[place].last_probed is Some {
        all[place].last_probed->Some_0 as int
    } else {
        now - 3_600_000_000_000
    }
}

/// Whether the remotes at some places have waited longest, in that order.
pub open spec fn are_longest_unprobed(places: Seq<int>, all: Seq<ProbeTarget>, now: int) -> bool {
    &&& forall|i: int| 0 <= i < places.len() ==> 0 <= #[trigger] places[i] < all.len()
    &&& forall|i: int, j: int|
        0 <= i < j < places.len() ==> #[trigger] places[i] != #[trigger] places[j] && (
        waits_since(all, places[i], now) < waits_since(all, places[j], now) || (waits_since(
            all,
            places[i],
            now,
        ) == waits_since(all, places[j], now) && places[i] < places[j]))
    &&& forall|out: int, i: int|
        0 <= out < all.len() && !places.contains(out) && 0 <= i < places.len() ==> waits_since(
            all,
            #[trigger] places[i],
            now,
        ) <= #[trigger] waits_since(all, out, now)
}

/// The choice goes by the times alone: a remote that waits longer than one that
/// is chosen is chosen too, whatever its address and its port.
pub proof fn longer_wait_is_chosen(
    chosen: Seq<ProbeTarget>,
    all: Seq<ProbeTarget>,
    now: int,
    count: nat,
    a: int,
    b: int,
)
    requires
        are_probe_candidates(chosen, all, now, count as int),
        i128::MIN + 3_600_000_000_000 <= now <= i128::MAX,
        0 <= a < all.len(),
        0 <= b < all.len(),
        all[a].last_probed is Some,
        all[b].last_probed is Some,
        all[a].last_probed->Some_0 < all[b].last_probed->Some_0,
        chosen.contains(all[b]),
        forall|i: int, j: int| 0 <= i < j < all.len() ==> #[trigger] all[i] != #[trigger] all[j],
    ensures
        chosen.contains(all[a]),
{
    if all.len() > count {
        longest_unprobed_come_first(chosen, all, now, count);
        let places = choose|places: Seq<int>| #[trigger]
            are_longest_unprobed(places, all, now) && places.len() == count && chosen
                == places.map_values(|p: int| all[p]);
        let w = choose|w: int| 0 <= w < chosen.len() && chosen[w] == all[b];
        assert(places[w] == b) by {
            assert(all[places[w]] == all[b]);
        }
        if !places.contains(a) {
            assert(waits_since(all, places[w], now) <= waits_since(all, a, now));
        }
        let v = choose|v: int| 0 <= v < places.len() && places[v] == a;
        assert(chosen[v] == all[a]);
    } else {
        assert(all.contains(all[a]));
    }
}

/// Remotes are probed at the start exactly when that is set and there are any,
/// at most as many at once as are set and as there are.
pub proof fn start_probes_all_it_may(initial: Option<InitialProbingConfig>, total: usize)
    ensures
        initial is None || !initial->Some_0.enabled <==> initial_plan(initial, total) is Disabled,
        initial_plan(initial, total) is Nothing ==> total == 0,
        initial_plan(initial, total) matches InitialPlan::Probe { max_concurrent } ==> {
            &&& total > 0
            &&& initial is Some && initial->Some_0.enabled
            &&& max_concurrent <= total
            &&& max_concurrent <= initial->Some_0.max_concurrency
            &&& max_concurrent == total || max_concurrent == initial->Some_0.max_concurrency
        },
        initial is Some && initial->Some_0.enabled && total > 0 ==> initial_plan(
            initial,
            total,
        ) is Probe,
{
}

/// The timeout that is set for the start comes before the one set for all.
pub proof fn start_has_its_own_timeout(config: ProbingConfig)
    ensures
        config.initial is Some && config.initial->Some_0.timeout is Some ==> timeout_at_start(
            config,
        ) == config.initial->Some_0.timeout->Some_0,
        config.initial is None || config.initial->Some_0.timeout is None ==> timeout_at_start(
            config,
        ) == config.timeout,
{
}

/// Of fewer than ten, progress is shown after each; of more, at the multiples of
/// a tenth and nowhere else.
pub proof fn progress_is_shown_by_tenths(completed: usize, total: usize, k: nat)
    ensures
        total < 10 ==> is_shown(completed, total),
        total >= 10 && completed == k * (total / 10) ==> is_shown(completed, total),
        total >= 10 && k * (total / 10) < completed < (k + 1) * (total / 10) ==> !is_shown(
            completed,
            total,
        ),
{
    let tenth: int = total as int / 10;
    let c: int = completed as int;
    let n: int = k as int;
    if total >= 10 {
        assert(c == n * tenth ==> c % tenth == 0) by (nonlinear_arith)
            requires
                tenth >= 1,
        ;
        assert(n * tenth < c < (n + 1) * tenth ==> c % tenth != 0) by (nonlinear_arith)
            requires
                tenth >= 1,
        ;
    }
}

} // verus!
