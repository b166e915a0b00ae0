//! Scanning networks for addresses that answer well.
pub mod asn;
pub mod executor;
pub mod probe;
pub mod results;

use crate::config::{ScanStrategyConfig, ScanStrategyType};
use crate::model::SubnetQuality;
use crate::net::IpNet;
use crate::scanner::executor::FOCUSED_SCAN_SUBNET_MASK;
use crate::sort::{is_ranking, rank, ranking_ascends, ranking_puts_smallest_first};
use vstd::prelude::*;

verus! {

/// What a scan did.
#[derive(Clone, Copy, Debug, PartialEq, Eq, Structural)]
pub struct ScanStats {
    pub total_scanned: usize,
    pub success_count: usize,
    pub updated_subnets: usize,
}

impl Default for ScanStats {
    fn default() -> (r: Self)
        ensures
            r.total_scanned == 0,
            r.success_count == 0,
            r.updated_subnets == 0,
    {
        ScanStats { total_scanned: 0, success_count: 0, updated_subnets: 0 }
    }
}

/// The addresses that are probed at once at least.
pub const MIN_CONCURRENCY: usize = 50;

/// The addresses that a scan asked for by hand probes at once.
pub const SCAN_MODE_CONCURRENCY: usize = 200;

/// A number of addresses probed at once, raised to the least there is.
pub open spec fn raised(concurrency: usize) -> usize {
    if concurrency >= MIN_CONCURRENCY {
        concurrency
    } else {
        MIN_CONCURRENCY
    }
}

/// Raises the number of addresses probed at once to the least there is.
pub fn effective_concurrency(concurrency: usize) -> (c: usize)
    ensures
        c == raised(concurrency),
        c >= 50 && c >= concurrency && (c == 50 || c == concurrency),
{
    if concurrency >= MIN_CONCURRENCY {
        concurrency
    } else {
        MIN_CONCURRENCY
    }
}

/// The networks to scan: those fetched, or those configured where none was.
pub open spec fn roots(configured: Vec<IpNet>, fetched: Option<Vec<IpNet>>) -> Vec<IpNet> {
    match fetched {
        Some(nets) => if nets@.len() > 0 {
            nets
        } else {
            configured
        },
        None => configured,
    }
}

/// Chooses the networks to scan: those that were fetched, unless there are none
/// or fetching failed, then those that are set.
pub fn choose_root_cidrs(configured: Vec<IpNet>, fetched: Option<Vec<IpNet>>) -> (r: Vec<IpNet>)
    ensures
        r == roots(configured, fetched),
{
    match fetched {
        Some(nets) => if nets.len() > 0 {
            nets
        } else {
            configured
        },
        None => configured,
    }
}

/// How closely the networks are looked at.
#[derive(Clone, Copy, Debug, PartialEq, Eq, Structural)]
pub struct Phase {
    /// The prefix length that the networks are split to.
    pub mask: u8,
    /// The addresses probed of each.
    pub samples: usize,
}

/// The part of a scan that looks closely.
pub open spec fn close_look(strategy: ScanStrategyConfig) -> Phase {
    Phase { mask: FOCUSED_SCAN_SUBNET_MASK, samples: strategy.focused_samples_per_subnet }
}

/// The part that a scan starts with.
pub open spec fn first_look(strategy: ScanStrategyConfig) -> Phase {
    match strategy.strategy_type {
        ScanStrategyType::FullScan => close_look(strategy),
        ScanStrategyType::Adaptive => Phase {
            mask: strategy.initial_scan_mask,
            samples: strategy.initial_samples_per_subnet,
        },
    }
}

/// The close look: all of a full scan, and the last part of an adaptive one.
pub fn focused_phase(strategy: &ScanStrategyConfig) -> (p: Phase)
    ensures
        p == close_look(*strategy),
{
    Phase { mask: FOCUSED_SCAN_SUBNET_MASK, samples: strategy.focused_samples_per_subnet }
}

/// The look that a scan starts with.
pub fn first_phase(strategy: &ScanStrategyConfig) -> (p: Phase)
    ensures
        p == first_look(*strategy),
{
    match strategy.strategy_type {
        ScanStrategyType::FullScan => focused_phase(strategy),
        ScanStrategyType::Adaptive => Phase {
            mask: strategy.initial_scan_mask,
            samples: strategy.initial_samples_per_subnet,
        },
    }
}

/// What sorts the better records first.
pub open spec fn promise_keys(records: Seq<SubnetQuality>) -> Seq<(i64, i128)> {
    records.map_values(|q: SubnetQuality| ((-q.score.total_rank()) as i64, 0i128))
}

/// Whether `nets` are the networks of the `k` best records, best first and of
/// equals the earlier, or of all where there are no more.
pub open spec fn are_hot_spots(nets: Seq<IpNet>, records: Seq<SubnetQuality>, k: int) -> bool {
    exists|order: Seq<usize>| #[trigger]
        is_ranking(order, promise_keys(records)) && nets == Seq::new(
            if k <= records.len() {
                k as nat
            } else {
                records.len()
            },
            |i: int| records[order[i] as int].subnet,
        )
}

/// Picks the `top_k` networks with the best scores.
pub fn analyze_hot_spots(records: &Vec<SubnetQuality>, top_k: usize) -> (nets: Vec<IpNet>)
    ensures
        are_hot_spots(nets@, records@, top_k as int),
{
    let mut keys: Vec<(i64, i128)> = Vec::new();
    let mut i: usize = 0;
    while i < records.len()
        invariant
            i <= records@.len(),
            keys@ =~= promise_keys(records@).take(i as int),
        decreases records@.len() - i,
    {
        let key: i64 = records[i].score.total_key();
        keys.push((-key, 0));
        i = i + 1;
    }
    assert(keys@ =~= promise_keys(records@));
    let order: Vec<usize> = rank(&keys);
    let count: usize = if top_k <= records.len() {
        top_k
    } else {
        records.len()
    };
    let mut nets: Vec<IpNet> = Vec::new();
    let mut n: usize = 0;
    while n < count
        invariant
            n <= count <= records@.len() == order@.len(),
            is_ranking(order@, promise_keys(records@)),
            nets@.len() == n,
            forall|j: int| 0 <= j < n ==> #[trigger] nets@[j] == records@[order@[j] as int].subnet,
        decreases count - n,
    {
        assert(order@[n as int] < promise_keys(records@).len());
        nets.push(records[order[n]].subnet);
        n = n + 1;
    }
    assert(nets@ =~= Seq::new(count as nat, |j: int| records@[order@[j] as int].subnet));
    nets
}

/// What follows the sparse part of an adaptive scan.
#[derive(Debug)]
pub enum AdaptiveStep {
    /// Nothing is promising: the scan ends.
    Abort(ScanStats),
    /// Look at these networks closely.
    Focus(Vec<IpNet>),
}

/// What follows the sparse part of an adaptive scan that found given hot spots.
pub open spec fn initial_answer(
    success_count: usize,
    total_scanned: usize,
    hot_spots: Vec<IpNet>,
) -> AdaptiveStep {
    if hot_spots@.len() == 0 {
        AdaptiveStep::Abort(ScanStats { total_scanned, success_count, updated_subnets: 0 })
    } else {
        AdaptiveStep::Focus(hot_spots)
    }
}

/// Decides what follows the sparse part of an adaptive scan.
pub fn after_initial_scan(success_count: usize, total_scanned: usize, hot_spots: Vec<IpNet>) -> (s:
    AdaptiveStep)
    ensures
        s == initial_answer(success_count, total_scanned, hot_spots),
{
    if hot_spots.len() == 0 {
        return AdaptiveStep::Abort(
            ScanStats { total_scanned, success_count, updated_subnets: 0 },
        );
    }
    AdaptiveStep::Focus(hot_spots)
}

/// Adds up both parts of an adaptive scan; each pair counts the probes that
/// succeeded and the probes.
pub fn adaptive_stats(
    initial: (usize, usize),
    focused: (usize, usize),
    updated_subnets: usize,
) -> (s: ScanStats)
    requires
        initial.0 + focused.0 <= usize::MAX,
        initial.1 + focused.1 <= usize::MAX,
    ensures
        s.success_count == initial.0 + focused.0,
        s.total_scanned == initial.1 + focused.1,
        s.updated_subnets == updated_subnets,
{
    ScanStats {
        total_scanned: initial.1 + focused.1,
        success_count: initial.0 + focused.0,
        updated_subnets,
    }
}

/// Whether scans run while forwarding: where the settings say so, or where one
/// is asked for at the start.
pub fn runs_background_scan(enabled: bool, scan_on_start: bool) -> (b: bool)
    ensures
        b == (enabled || scan_on_start),
{
    enabled || scan_on_start
}

/// What the scanner that runs while forwarding waits for or does.
#[derive(Clone, Copy, Debug, PartialEq, Eq, Structural)]
pub enum BackgroundStep {
    /// Scan and save.
    Scan,
    /// Wait for the interval to pass or the shutdown.
    Wait { secs: u64 },
    Stop,
}

/// What happened to the scanner that runs while forwarding.
#[derive(Clone, Copy, Debug, PartialEq, Eq, Structural)]
pub enum BackgroundEvent {
    Started { scan_on_start: bool },
    ScanDone,
    IntervalPassed,
    ShutDown,
}

/// What scanning in the background does next.
pub open spec fn background_answer(event: BackgroundEvent, interval_secs: u64) -> BackgroundStep {
    match event {
        BackgroundEvent::Started { scan_on_start } => if scan_on_start {
            BackgroundStep::Scan
        } else {
            BackgroundStep::Wait { secs: interval_secs }
        },
        BackgroundEvent::ScanDone => BackgroundStep::Wait { secs: interval_secs },
        BackgroundEvent::IntervalPassed => BackgroundStep::Scan,
        BackgroundEvent::ShutDown => BackgroundStep::Stop,
    }
}

/// Decides what the scanner does next.
pub fn background_step(event: BackgroundEvent, interval_secs: u64) -> (s: BackgroundStep)
    ensures
        s == background_answer(event, interval_secs),
{
    match event {
        BackgroundEvent::Started { scan_on_start } => if scan_on_start {
            BackgroundStep::Scan
        } else {
            BackgroundStep::Wait { secs: interval_secs }
        },
        BackgroundEvent::ScanDone => BackgroundStep::Wait { secs: interval_secs },
        BackgroundEvent::IntervalPassed => BackgroundStep::Scan,
        BackgroundEvent::ShutDown => BackgroundStep::Stop,
    }
}

/// At least fifty addresses are probed at once, and otherwise as many as were
/// asked for.
pub proof fn concurrency_is_raised(concurrency: usize)
    ensures
        concurrency < 50 ==> raised(concurrency) == 50,
        concurrency >= 50 ==> raised(concurrency) == concurrency,
{
}

/// What was fetched is scanned, and what was configured only where nothing was
/// fetched.
pub proof fn fetched_networks_come_first(configured: Vec<IpNet>, fetched: Vec<IpNet>)
    ensures
        fetched@.len() > 0 ==> roots(configured, Some(fetched)) == fetched,
        fetched@.len() == 0 ==> roots(configured, Some(fetched)) == configured,
        roots(configured, None) == configured,
{
}

/// A full scan looks closely at once, at networks of twenty-four bits; an
/// adaptive one starts with the mask and the samples set for that.
pub proof fn strategies_set_the_first_phase(strategy: ScanStrategyConfig)
    ensures
        close_look(strategy).mask == 24,
        close_look(strategy).samples == strategy.focused_samples_per_subnet,
        strategy.strategy_type == ScanStrategyType::FullScan ==> first_look(strategy) == close_look(
            strategy,
        ),
        strategy.strategy_type == ScanStrategyType::Adaptive ==> first_look(strategy).mask
            == strategy.initial_scan_mask && first_look(strategy).samples
            == strategy.initial_samples_per_subnet,
{
}

/// Whether `places` are those of the `k` records with the highest scores, or of
/// all where there are no more: by descending score, of equals the earlier
/// first.
pub open spec fn are_most_promising(
    places: Seq<int>,
    records: Seq<SubnetQuality>,
    k: nat,
) -> bool {
    &&& places.len() == k || (places.len() == records.len() && records.len() < k)
    &&& forall|i: int| 0 <= i < places.len() ==> 0 <= #[trigger] places[i] < records.len()
    &&& forall|i: int, j: int|
        0 <= i < j < places.len() ==> {
            let (a, b) = (#[trigger] places[i], #[trigger] places[j]);
            ||| records[a].score.total_rank() > records[b].score.total_rank()
            ||| records[a].score.total_rank() == records[b].score.total_rank() && a < b
        }
    &&& forall|i: int, p: int|
        0 <= i < places.len() && 0 <= p < records.len() && !places.contains(p) ==> {
            let a = #[trigger] places[i];
            ||| records[a].score.total_rank() > (#[trigger] records[p]).score.total_rank()
            ||| records[a].score.total_rank() == records[p].score.total_rank() && a < p
        }
}

/// The hot spots are the networks with the highest scores, highest first.
pub proof fn hot_spots_have_highest_scores(nets: Seq<IpNet>, records: Seq<SubnetQuality>, k: nat)
    requires
        are_hot_spots(nets, records, k as int),
    ensures
        exists|places: Seq<int>| #[trigger]
            are_most_promising(places, records, k) && nets == places.map_values(
                |p: int| records[p].subnet,
            ),
{
    let keys: Seq<(i64, i128)> = promise_keys(records);
    let order = choose|order: Seq<usize>| #[trigger]
        is_ranking(order, keys) && nets == Seq::new(
            if k <= records.len() {
                k
            } else {
                records.len()
            },
            |i: int| records[order[i] as int].subnet,
        );
    let places: Seq<int> = Seq::new(nets.len(), |i: int| order[i] as int);
    assert forall|i: int| 0 <= i < places.len() implies 0 <= #[trigger] places[i]
        < records.len() by {
        assert(order[i] < keys.len());
    }
    assert forall|i: int, j: int| 0 <= i < j < places.len() implies {
        let (a, b) = (#[trigger] places[i], #[trigger] places[j]);
        ||| records[a].score.total_rank() > records[b].score.total_rank()
        ||| records[a].score.total_rank() == records[b].score.total_rank() && a < b
    } by {
        ranking_ascends(order, keys, i, j);
    }
    assert forall|i: int, p: int|
        0 <= i < places.len() && 0 <= p < records.len() && !places.contains(p) implies {
        let a = #[trigger] places[i];
        ||| records[a].score.total_rank() > (#[trigger] records[p]).score.total_rank()
        ||| records[a].score.total_rank() == records[p].score.total_rank() && a < p
    } by {
        assert forall|a: int| 0 <= a < places.len() implies #[trigger] order[a] != p by {
            assert(places[a] == order[a]);
        }
        assert(order[i] < keys.len());
        ranking_puts_smallest_first(order, keys, places.len() as int, i, p);
    }
    assert(are_most_promising(places, records, k));
    assert(nets =~= places.map_values(|p: int| records[p].subnet));
}

/// A scan ends after its sparse part if and only if nothing is promising; it
/// then tells what was scanned and what answered, and that nothing was updated.
/// Else all that is promising is looked at.
pub proof fn promise_decides_the_focus(
    success_count: usize,
    total_scanned: usize,
    hot_spots: Vec<IpNet>,
)
    ensures
        ({
            let step = initial_answer(success_count, total_scanned, hot_spots);
            &&& step is Abort <==> hot_spots@.len() == 0
            &&& step matches AdaptiveStep::Abort(stats) ==> stats.total_scanned == total_scanned
                && stats.success_count == success_count && stats.updated_subnets == 0
            &&& step matches AdaptiveStep::Focus(nets) ==> nets == hot_spots
        }),
{
}

/// Scans in the background alternate with waits of the whole interval until the
/// shutdown, which alone stops them. The start scans where that was asked for.
pub proof fn scans_alternate_with_waits(event: BackgroundEvent, interval_secs: u64)
    ensures
        background_answer(event, interval_secs) is Stop <==> event is ShutDown,
        background_answer(event, interval_secs) is Scan <==> event is IntervalPassed || (
        event matches BackgroundEvent::Started { scan_on_start } && scan_on_start),
        background_answer(event, interval_secs) matches BackgroundStep::Wait { secs } ==> secs
            == interval_secs,
{
}

} // verus!
