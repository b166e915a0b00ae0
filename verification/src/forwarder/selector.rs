//! Choosing the remotes in use.
use crate::float_bits::Double;
use crate::forwarder::config::SelectorConfig;
use crate::forwarder::loadbalancer::names_ip;
use crate::net::IpAddr;
use crate::sort::{is_ranking, rank, ranking_ascends, ranking_reaches_all};
use crate::time::{elapsed, elapsed_spec, Duration};
use vstd::prelude::*;

verus! {

/// A remote and its score.
pub type Scored = (IpAddr, Double);

/// How the remotes in use change.
#[derive(Debug)]
pub struct IpChangeEvent {
    pub added: Vec<IpAddr>,
    pub removed: Vec<IpAddr>,
    pub unchanged: Vec<IpAddr>,
}

impl IpChangeEvent {
    /// Whether a remote came into use or went out of use.
    pub open spec fn changes(self) -> bool {
        self.added@.len() > 0 || self.removed@.len() > 0
    }
}

/// What sorts the better remotes first.
pub open spec fn score_keys(scored: Seq<Scored>) -> Seq<(i64, i128)> {
    scored.map_values(|s: Scored| ((-s.1.numeric_rank()) as i64, 0i128))
}

/// The remotes in the order of a ranking.
pub open spec fn in_order(scored: Seq<Scored>, order: Seq<usize>) -> Seq<Scored> {
    Seq::new(order.len(), |i: int| scored[order[i] as int])
}

/// The remotes whose score is high enough, in order.
pub open spec fn qualified(scored: Seq<Scored>, threshold: Double) -> Seq<IpAddr>
    decreases scored.len(),
{
    if scored.len() == 0 {
        Seq::empty()
    } else {
        let before = qualified(scored.drop_last(), threshold);
        if threshold.at_most_spec(scored.last().1) {
            before.push(scored.last().0)
        } else {
            before
        }
    }
}

/// The first `n` of a list, or all where there are no more.
pub open spec fn first_of(ips: Seq<IpAddr>, n: int) -> Seq<IpAddr> {
    if n <= ips.len() {
        ips.take(n)
    } else {
        ips
    }
}

/// Whether remotes are the best that are good enough: sorted by score, those
/// below the threshold left out, and no more than asked for.
pub open spec fn are_candidates(
    candidates: Seq<IpAddr>,
    scored: Seq<Scored>,
    threshold: Double,
    active_set_size: int,
) -> bool {
    exists|order: Seq<usize>| #[trigger]
        is_ranking(order, score_keys(scored)) && candidates == first_of(
            qualified(in_order(scored, order), threshold),
            active_set_size,
        )
}

/// Picks the remotes to use: the best that are good enough. A score that is not
/// a number never is.
pub fn select_candidates(
    scored: &Vec<Scored>,
    threshold: Double,
    active_set_size: usize,
) -> (r: Vec<IpAddr>)
    ensures
        are_candidates(r@, scored@, threshold, active_set_size as int),
{
    let mut keys: Vec<(i64, i128)> = Vec::new();
    let mut i: usize = 0;
    while i < scored.len()
        invariant
            i <= scored@.len(),
            keys@ =~= score_keys(scored@).take(i as int),
        decreases scored@.len() - i,
    {
        let key: i128 = scored[i].1.numeric_key();
        keys.push(((-key) as i64, 0));
        i = i + 1;
    }
    assert(keys@ =~= score_keys(scored@));
    let order: Vec<usize> = rank(&keys);
    let ghost sorted: Seq<Scored> = in_order(scored@, order@);
    let ghost all: Seq<IpAddr> = qualified(sorted, threshold);
    let mut good: Vec<IpAddr> = Vec::new();
    let mut k: usize = 0;
    assert(sorted.take(0) =~= Seq::empty());
    while k < order.len()
        invariant
            k <= order@.len(),
            order@.len() == scored@.len(),
            is_ranking(order@, score_keys(scored@)),
            sorted == in_order(scored@, order@),
            good@ == qualified(sorted.take(k as int), threshold),
        decreases order@.len() - k,
    {
        assert(order@[k as int] < score_keys(scored@).len());
        let item: Scored = scored[order[k]];
        assert(sorted.take(k + 1).drop_last() =~= sorted.take(k as int));
        assert(sorted.take(k + 1).last() == item);
        if threshold.at_most(item.1) {
            good.push(item.0);
        }
        k = k + 1;
    }
    assert(sorted.take(k as int) =~= sorted);
    good.truncate(active_set_size);
    assert(good@ =~= first_of(all, active_set_size as int));
    good
}

/// Compares the remotes to use with those in use.
pub fn compare(candidates: &Vec<IpAddr>, current: &Vec<IpAddr>) -> (event: IpChangeEvent)
    ensures
        is_change(event, candidates@, current@),
{
    let mut added: Vec<IpAddr> = Vec::new();
    let mut unchanged: Vec<IpAddr> = Vec::new();
    let mut i: usize = 0;
    proof {
        reveal(Seq::filter);
        assert(candidates@.take(0).filter(|ip: IpAddr| !current@.contains(ip)) =~= Seq::empty());
        assert(candidates@.take(0).filter(|ip: IpAddr| current@.contains(ip)) =~= Seq::empty());
        assert(current@.take(0).filter(|ip: IpAddr| !candidates@.contains(ip)) =~= Seq::empty());
    }
    while i < candidates.len()
        invariant
            i <= candidates@.len(),
            added@ == candidates@.take(i as int).filter(|ip: IpAddr| !current@.contains(ip)),
            unchanged@ == candidates@.take(i as int).filter(|ip: IpAddr| current@.contains(ip)),
        decreases candidates@.len() - i,
    {
        let ip: IpAddr = candidates[i];
        proof {
            reveal(Seq::filter);
            assert(candidates@.take(i + 1).drop_last() =~= candidates@.take(i as int));
            assert(candidates@.take(i + 1).last() == ip);
        }
        if names_ip(current.as_slice(), ip) {
            unchanged.push(ip);
        } else {
            added.push(ip);
        }
        i = i + 1;
    }
    assert(candidates@.take(i as int) =~= candidates@);
    let mut removed: Vec<IpAddr> = Vec::new();
    let mut k: usize = 0;
    while k < current.len()
        invariant
            k <= current@.len(),
            removed@ == current@.take(k as int).filter(|ip: IpAddr| !candidates@.contains(ip)),
        decreases current@.len() - k,
    {
        let ip: IpAddr = current[k];
        proof {
            reveal(Seq::filter);
            assert(current@.take(k + 1).drop_last() =~= current@.take(k as int));
            assert(current@.take(k + 1).last() == ip);
        }
        if !names_ip(candidates.as_slice(), ip) {
            removed.push(ip);
        }
        k = k + 1;
    }
    assert(current@.take(k as int) =~= current@);
    IpChangeEvent { added, removed, unchanged }
}

/// Whether a change leads from the remotes in use to other ones.
pub open spec fn is_change(
    event: IpChangeEvent,
    candidates: Seq<IpAddr>,
    current: Seq<IpAddr>,
) -> bool {
    &&& event.added@ == candidates.filter(|ip: IpAddr| !current.contains(ip))
    &&& event.unchanged@ == candidates.filter(|ip: IpAddr| current.contains(ip))
    &&& event.removed@ == current.filter(|ip: IpAddr| !candidates.contains(ip))
}

/// Whether a change is large: any is where no gain is asked for, else one that
/// gains enough.
pub open spec fn is_significant(threshold: Double, improvement: Double) -> bool {
    threshold.at_most_spec(Double { bits: 0 }) || threshold.at_most_spec(improvement)
}

/// Whether a change is large. `improvement` gives the gain in the mean score,
/// and is only asked where it matters.
pub fn is_change_significant(
    new_ips: &Vec<IpAddr>,
    current_ips: &Vec<IpAddr>,
    threshold: Double,
    improvement: impl Fn(&Vec<IpAddr>, &Vec<IpAddr>) -> Double,
) -> (b: bool)
    requires
        call_requires(improvement, (new_ips, current_ips)),
    ensures
        exists|gain: Double| #[trigger]
            is_gain(gain, *new_ips, *current_ips, threshold, improvement) && b == is_significant(
                threshold,
                gain,
            ),
{
    if threshold.at_most(Double { bits: 0 }) {
        assert(is_gain(Double { bits: 0 }, *new_ips, *current_ips, threshold, improvement));
        return true;
    }
    let gain: Double = improvement(new_ips, current_ips);
    assert(is_gain(gain, *new_ips, *current_ips, threshold, improvement));
    threshold.at_most(gain)
}

/// Whether a gain is the one that `improvement` gives, where it matters.
pub open spec fn is_gain<F: Fn(&Vec<IpAddr>, &Vec<IpAddr>) -> Double>(
    gain: Double,
    new_ips: Vec<IpAddr>,
    current_ips: Vec<IpAddr>,
    threshold: Double,
    improvement: F,
) -> bool {
    threshold.at_most_spec(Double { bits: 0 }) || call_ensures(
        improvement,
        (&new_ips, &current_ips),
        gain,
    )
}

/// Whether a change is put off: it is small, and the last one was not long ago.
pub open spec fn is_put_off(
    changes: bool,
    significant: bool,
    since_last: int,
    debounce: int,
) -> bool {
    changes && debounce > 0 && !significant && since_last < debounce
}

/// The outcome of an evaluation.
#[derive(Debug)]
pub struct Evaluation {
    pub event: IpChangeEvent,
    /// The remotes in use from now on.
    pub active: Vec<IpAddr>,
    /// When the remotes in use last changed.
    pub last_change: u128,
}

/// Whether an evaluation came out right. A change that is put off leaves all
/// as it was, and shows as no change.
pub open spec fn is_outcome(
    outcome: Evaluation,
    candidates: Seq<IpAddr>,
    current: Seq<IpAddr>,
    last_change: u128,
    now: u128,
    debounce: int,
    significant: bool,
) -> bool {
    let changes = exists|event: IpChangeEvent| #[trigger]
        is_change(event, candidates, current) && event.changes();
    if is_put_off(changes, significant, elapsed_spec(last_change, now), debounce) {
        &&& outcome.event.added@.len() == 0
        &&& outcome.event.removed@.len() == 0
        &&& outcome.event.unchanged@ == current
        &&& outcome.active@ == current
        &&& outcome.last_change == last_change
    } else {
        &&& is_change(outcome.event, candidates, current)
        &&& outcome.active@ == if changes {
            candidates
        } else {
            current
        }
        &&& outcome.last_change == if changes {
            now
        } else {
            last_change
        }
    }
}

/// Decides on a change of the remotes in use.
pub fn decide_change(
    candidates: Vec<IpAddr>,
    current: Vec<IpAddr>,
    last_change: u128,
    now: u128,
    debounce: Duration,
    significant: bool,
) -> (outcome: Evaluation)
    ensures
        is_outcome(
            outcome,
            candidates@,
            current@,
            last_change,
            now,
            debounce.nanos as int,
            significant,
        ),
        !significant && last_change <= now && now - last_change < debounce.nanos
            ==> outcome.active@ == current@ && outcome.last_change == last_change,
{
    let event: IpChangeEvent = compare(&candidates, &current);
    let changes: bool = event.added.len() > 0 || event.removed.len() > 0;
    proof {
        assert(is_change(event, candidates@, current@));
        assert forall|other: IpChangeEvent| #[trigger]
            is_change(other, candidates@, current@) implies other.changes() == changes by {}
    }
    if !changes {
        return Evaluation { event, active: current, last_change };
    }
    if debounce.nanos > 0 && !significant && elapsed(last_change, now).nanos < debounce.nanos {
        return Evaluation {
            event: IpChangeEvent {
                added: Vec::new(),
                removed: Vec::new(),
                unchanged: copy_of(&current),
            },
            active: current,
            last_change,
        };
    }
    Evaluation { event, active: candidates, last_change: now }
}

fn copy_of(ips: &Vec<IpAddr>) -> (r: Vec<IpAddr>)
    ensures
        r@ == ips@,
{
    let mut r: Vec<IpAddr> = Vec::new();
    let mut i: usize = 0;
    while i < ips.len()
        invariant
            i <= ips@.len(),
            r@ =~= ips@.take(i as int),
        decreases ips@.len() - i,
    {
        r.push(ips[i]);
        i = i + 1;
    }
    assert(r@ =~= ips@);
    r
}

/// Picks the remotes to use by their scores, and decides whether to change to
/// them. `improvement` gives the gain in the mean score of one list of remotes
/// over another.
pub fn evaluate_and_select(
    scored: &Vec<Scored>,
    current: Vec<IpAddr>,
    config: &SelectorConfig,
    last_change: u128,
    now: u128,
    improvement: impl Fn(&Vec<IpAddr>, &Vec<IpAddr>) -> Double,
) -> (outcome: Evaluation)
    requires
        forall|a: &Vec<IpAddr>, b: &Vec<IpAddr>| #[trigger] call_requires(improvement, (a, b)),
    ensures
        exists|candidates: Vec<IpAddr>, gain: Double|
            are_candidates(
                candidates@,
                scored@,
                config.min_score_threshold,
                config.active_set_size as int,
            ) && #[trigger] is_gain(
                gain,
                candidates,
                current,
                config.switching.score_improvement_threshold,
                improvement,
            ) && is_outcome(
                outcome,
                candidates@,
                current@,
                last_change,
                now,
                config.switching.debounce_interval.nanos as int,
                is_significant(config.switching.score_improvement_threshold, gain),
            ),
{
    let candidates: Vec<IpAddr> = select_candidates(
        scored,
        config.min_score_threshold,
        config.active_set_size,
    );
    let threshold: Double = config.switching.score_improvement_threshold;
    let significant: bool = is_change_significant(&candidates, &current, threshold, &improvement);
    let ghost gain: Double = choose|gain: Double| #[trigger]
        is_gain(gain, candidates, current, threshold, &improvement) && significant
            == is_significant(threshold, gain);
    assert(is_gain(gain, candidates, current, threshold, improvement));
    decide_change(
        candidates,
        current,
        last_change,
        now,
        config.switching.debounce_interval,
        significant,
    )
}

/// Seconds to wait between the first evaluation and the second.
pub const SETTLING_SECS: u64 = 2;

/// What the selector waits for before it evaluates again.
#[derive(Clone, Copy, Debug, PartialEq, Eq, Structural)]
pub enum SelectorWait {
    /// The start to settle.
    Settle { secs: u64 },
    /// The interval to pass.
    Interval,
}

/// What the selector waits for after an evaluation.
pub open spec fn wait_answer(first: bool) -> SelectorWait {
    if first {
        SelectorWait::Settle { secs: SETTLING_SECS }
    } else {
        SelectorWait::Interval
    }
}

/// Decides what the selector waits for after an evaluation.
pub fn wait_after(first: bool) -> (w: SelectorWait)
    ensures
        w == wait_answer(first),
{
    if first {
        SelectorWait::Settle { secs: SETTLING_SECS }
    } else {
        SelectorWait::Interval
    }
}

/// The number of remotes in use that is reported; none where there is nothing
/// new to report.
pub open spec fn reported(event: IpChangeEvent, first: bool) -> Option<usize> {
    if event.changes() {
        Some((event.added@.len() + event.unchanged@.len()) as usize)
    } else if first && event.unchanged@.len() > 0 {
        Some(event.unchanged@.len() as usize)
    } else {
        None
    }
}

/// The number of remotes in use to report after an evaluation: always where
/// something changed, and after the first evaluation where any is in use.
pub fn active_count_to_report(event: &IpChangeEvent, first: bool) -> (n: Option<usize>)
    requires
        event.added@.len() + event.unchanged@.len() <= usize::MAX,
    ensures
        n == reported(*event, first),
{
    if event.added.len() > 0 || event.removed.len() > 0 {
        return Some(event.added.len() + event.unchanged.len());
    }
    if first && event.unchanged.len() > 0 {
        return Some(event.unchanged.len());
    }
    None
}

/// The remotes that are marked as in use.
pub open spec fn marked(outcome: Evaluation) -> Seq<IpAddr> {
    if outcome.event.changes() {
        outcome.active@
    } else {
        Seq::empty()
    }
}

/// Lists the remotes to note as selected after an evaluation: where something
/// changed, all that are in use from now on.
pub fn remotes_to_mark(outcome: &Evaluation) -> (r: Vec<IpAddr>)
    ensures
        r@ == marked(*outcome),
{
    if outcome.event.added.len() > 0 || outcome.event.removed.len() > 0 {
        copy_of(&outcome.active)
    } else {
        Vec::new()
    }
}

/// Whether a remote has a score that is high enough.
pub open spec fn is_good(scored: Seq<Scored>, threshold: Double, ip: IpAddr) -> bool {
    exists|j: int|
        0 <= j < scored.len() && (#[trigger] scored[j]).0 == ip && threshold.at_most_spec(
            scored[j].1,
        )
}

/// Whether the remote at one place goes before that at another: its score is
/// higher, or the same and its place is the earlier one.
pub open spec fn goes_before(scored: Seq<Scored>, a: int, b: int) -> bool {
    ||| scored[a].1.numeric_rank() > scored[b].1.numeric_rank()
    ||| scored[a].1.numeric_rank() == scored[b].1.numeric_rank() && a < b
}

/// Whether the remotes at some places are the best that are good enough: no more
/// than asked for, no place twice, each good enough, the better before the
/// worse; and a good one that is left out is no better than any of them, and
/// only left out where there are as many as asked for.
pub open spec fn are_best_places(
    places: Seq<int>,
    scored: Seq<Scored>,
    threshold: Double,
    active_set_size: int,
) -> bool {
    &&& places.len() <= active_set_size
    &&& forall|i: int|
        0 <= i < places.len() ==> 0 <= #[trigger] places[i] < scored.len()
            && threshold.at_most_spec(scored[places[i]].1)
    &&& forall|i: int, j: int|
        0 <= i < j < places.len() ==> #[trigger] places[i] != #[trigger] places[j]
            && goes_before(scored, places[i], places[j])
    &&& forall|out: int|
        0 <= out < scored.len() && threshold.at_most_spec((#[trigger] scored[out]).1)
            && !places.contains(out) ==> places.len() == active_set_size && no_better(
            out,
            places,
            scored,
        )
}

/// Whether the remote at a place is no better than those at others.
pub open spec fn no_better(place: int, others: Seq<int>, scored: Seq<Scored>) -> bool {
    forall|i: int|
        0 <= i < others.len() ==> goes_before(scored, #[trigger] others[i], place)
}

/// The remotes that are picked are the best of those that are good enough, in
/// the order of their scores: no more than asked for, each good enough, and
/// none better left out.
pub proof fn candidates_are_good(
    candidates: Seq<IpAddr>,
    scored: Seq<Scored>,
    threshold: Double,
    active_set_size: nat,
)
    requires
        are_candidates(candidates, scored, threshold, active_set_size as int),
    ensures
        candidates.len() <= active_set_size,
        forall|i: int|
            0 <= i < candidates.len() ==> is_good(scored, threshold, #[trigger] candidates[i]),
        exists|places: Seq<int>| #[trigger]
            are_best_places(places, scored, threshold, active_set_size as int) && candidates
                == remotes_at(places, scored),
{
    let order = choose|order: Seq<usize>| #[trigger]
        is_ranking(order, score_keys(scored)) && candidates == first_of(
            qualified(in_order(scored, order), threshold),
            active_set_size as int,
        );
    let n = candidates.len() as int;
    assert(ranked(order, scored)) by {
        assert forall|a: int| 0 <= a < order.len() implies #[trigger] order[a] < scored.len() by {
            assert(order[a] < score_keys(scored).len());
        }
        assert forall|a: int, b: int| 0 <= a < b < order.len() implies #[trigger] order[a]
            != #[trigger] order[b] && goes_before(scored, order[a] as int, order[b] as int) by {
            ranking_ascends(order, score_keys(scored), a, b);
        }
    }
    lemma_good_places(order, scored, threshold);
    let all = good_places(order, scored, threshold);
    let places = all.take(n);
    assert(candidates =~= remotes_at(places, scored));
    assert forall|i: int| 0 <= i < n implies 0 <= #[trigger] places[i] < scored.len()
        && threshold.at_most_spec(scored[places[i]].1) by {
        assert(all[i] == places[i]);
    }
    assert forall|i: int, j: int| 0 <= i < j < n implies #[trigger] places[i]
        != #[trigger] places[j] && goes_before(scored, places[i], places[j]) by {
        assert(all[i] != all[j]);
    }
    assert forall|out: int|
        0 <= out < scored.len() && threshold.at_most_spec((#[trigger] scored[out]).1)
            && !places.contains(out) implies n == active_set_size && no_better(
        out,
        places,
        scored,
    ) by {
        ranking_reaches_all(order, score_keys(scored), out);
        let a = choose|a: int| 0 <= a < order.len() && #[trigger] order[a] == out;
        assert(all.contains(order[a] as int));
        let q = choose|q: int| 0 <= q < all.len() && all[q] == out;
        if q < n {
            assert(places[q] == out);
        }
        assert forall|i: int| 0 <= i < n implies goes_before(
            scored,
            #[trigger] places[i],
            out,
        ) by {
            assert(all[i] != all[q]);
        }
    }
    assert(are_best_places(places, scored, threshold, active_set_size as int));
    assert forall|i: int| 0 <= i < n implies is_good(
        scored,
        threshold,
        #[trigger] candidates[i],
    ) by {
        assert(scored[places[i]].0 == candidates[i]);
    }
}

/// The remotes at some places.
pub open spec fn remotes_at(places: Seq<int>, scored: Seq<Scored>) -> Seq<IpAddr> {
    places.map_values(|p: int| scored[p].0)
}

/// Whether places are different and go from the better remotes to the worse.
spec fn ranked(order: Seq<usize>, scored: Seq<Scored>) -> bool {
    &&& forall|a: int| 0 <= a < order.len() ==> #[trigger] order[a] < scored.len()
    &&& forall|a: int, b: int|
        0 <= a < b < order.len() ==> #[trigger] order[a] != #[trigger] order[b]
            && goes_before(scored, order[a] as int, order[b] as int)
}

/// The places of the remotes that are good enough, in order.
spec fn good_places(order: Seq<usize>, scored: Seq<Scored>, threshold: Double) -> Seq<int>
    decreases order.len(),
{
    if order.len() == 0 {
        Seq::empty()
    } else {
        let before = good_places(order.drop_last(), scored, threshold);
        if threshold.at_most_spec(scored[order.last() as int].1) {
            before.push(order.last() as int)
        } else {
            before
        }
    }
}

proof fn lemma_good_places(order: Seq<usize>, scored: Seq<Scored>, threshold: Double)
    requires
        ranked(order, scored),
    ensures
        ({
            let places = good_places(order, scored, threshold);
            &&& qualified(in_order(scored, order), threshold) == remotes_at(places, scored)
            &&& forall|i: int|
                0 <= i < places.len() ==> (exists|a: int|
                    0 <= a < order.len() && #[trigger] order[a] == places[i]) && 0
                    <= #[trigger] places[i] < scored.len() && threshold.at_most_spec(
                    scored[places[i]].1,
                )
            &&& forall|i: int, j: int|
                0 <= i < j < places.len() ==> #[trigger] places[i] != #[trigger] places[j]
                    && goes_before(scored, places[i], places[j])
            &&& forall|a: int|
                0 <= a < order.len() && threshold.at_most_spec(
                    scored[#[trigger] order[a] as int].1,
                ) ==> places.contains(order[a] as int)
        }),
    decreases order.len(),
{
    let places = good_places(order, scored, threshold);
    if order.len() == 0 {
        assert(remotes_at(places, scored) =~= Seq::empty());
    } else {
        let init = order.drop_last();
        let before = good_places(init, scored, threshold);
        let last = order.last();
        let sorted = in_order(scored, order);
        assert(ranked(init, scored)) by {
            assert forall|a: int| 0 <= a < init.len() implies #[trigger] init[a]
                < scored.len() by {
                assert(order[a] < scored.len());
            }
            assert forall|a: int, b: int| 0 <= a < b < init.len() implies #[trigger] init[a]
                != #[trigger] init[b] && goes_before(scored, init[a] as int, init[b] as int) by {
                assert(order[a] != order[b]);
            }
        }
        lemma_good_places(init, scored, threshold);
        assert(sorted.drop_last() =~= in_order(scored, init));
        assert(sorted.last() == scored[last as int]);
        assert(remotes_at(before.push(last as int), scored) =~= remotes_at(before, scored).push(
            scored[last as int].0,
        ));
        assert(order[order.len() - 1] < scored.len());
        assert forall|i: int| 0 <= i < places.len() implies (exists|a: int|
            0 <= a < order.len() && #[trigger] order[a] == places[i]) && 0 <= #[trigger] places[i]
            < scored.len() && threshold.at_most_spec(scored[places[i]].1) by {
            if i < before.len() {
                assert(places[i] == before[i]);
                let a = choose|a: int| 0 <= a < init.len() && #[trigger] init[a] == before[i];
                assert(order[a] == places[i]);
            } else {
                assert(order[order.len() - 1] == places[i]);
            }
        }
        assert forall|i: int, j: int| 0 <= i < j < places.len() implies #[trigger] places[i]
            != #[trigger] places[j] && goes_before(scored, places[i], places[j]) by {
            assert(places[i] == before[i]);
            if j < before.len() {
                assert(places[j] == before[j]);
            } else {
                let a = choose|a: int| 0 <= a < init.len() && #[trigger] init[a] == before[i];
                assert(order[a] != order[order.len() - 1]);
            }
        }
        assert forall|a: int|
            0 <= a < order.len() && threshold.at_most_spec(
                scored[#[trigger] order[a] as int].1,
            ) implies places.contains(order[a] as int) by {
            if a < init.len() {
                assert(init[a] == order[a]);
                assert(before.contains(init[a] as int));
                let w = choose|w: int| 0 <= w < before.len() && before[w] == init[a] as int;
                assert(places[w] == order[a] as int);
            } else {
                assert(places[places.len() - 1] == order[a] as int);
            }
        }
    }
}

/// A small change within the interval that is set leaves the remotes in use and
/// the time of the last change as they were, and shows as no change.
pub proof fn small_changes_wait(
    outcome: Evaluation,
    candidates: Seq<IpAddr>,
    current: Seq<IpAddr>,
    last_change: u128,
    now: u128,
    debounce: int,
)
    requires
        is_outcome(outcome, candidates, current, last_change, now, debounce, false),
        last_change <= now,
        now - last_change < debounce,
    ensures
        outcome.active@ == current,
        outcome.last_change == last_change,
        outcome.event.added@.len() == 0,
        outcome.event.removed@.len() == 0,
{
}

/// Two small changes in a row are at least the interval that is set apart.
pub proof fn small_changes_keep_apart(
    first: Evaluation,
    second: Evaluation,
    candidates: Seq<IpAddr>,
    now: u128,
    debounce: int,
)
    requires
        first.last_change <= now,
        is_outcome(second, candidates, first.active@, first.last_change, now, debounce, false),
        second.active@ != first.active@ || second.last_change != first.last_change,
    ensures
        now - first.last_change >= debounce,
{
}

/// A change that is large, or that comes after the interval, is made: where the
/// candidates differ from the remotes in use, they are in use from now on.
pub proof fn due_changes_are_made(
    outcome: Evaluation,
    candidates: Seq<IpAddr>,
    current: Seq<IpAddr>,
    last_change: u128,
    now: u128,
    debounce: int,
    significant: bool,
    ip: IpAddr,
)
    requires
        is_outcome(outcome, candidates, current, last_change, now, debounce, significant),
        candidates.contains(ip) <==> !current.contains(ip),
        significant || debounce <= 0 || now - last_change >= debounce,
    ensures
        outcome.active@ == candidates,
        outcome.last_change == now,
{
    lemma_change_members(outcome.event, candidates, current, ip);
}

/// Where the candidates are the remotes in use, nothing changes.
pub proof fn same_remotes_stay(
    outcome: Evaluation,
    candidates: Seq<IpAddr>,
    current: Seq<IpAddr>,
    last_change: u128,
    now: u128,
    debounce: int,
    significant: bool,
)
    requires
        is_outcome(outcome, candidates, current, last_change, now, debounce, significant),
        forall|ip: IpAddr| #[trigger] candidates.contains(ip) <==> current.contains(ip),
    ensures
        outcome.active@ == current,
        outcome.last_change == last_change,
        outcome.event.added@.len() == 0,
        outcome.event.removed@.len() == 0,
{
    assert forall|event: IpChangeEvent| #[trigger]
        is_change(event, candidates, current) implies !event.changes() by {
        if event.added@.len() > 0 {
            let ip = event.added@[0];
            assert(event.added@.contains(ip));
            lemma_change_members(event, candidates, current, ip);
            assert(candidates.contains(ip));
        }
        if event.removed@.len() > 0 {
            let ip = event.removed@[0];
            assert(event.removed@.contains(ip));
            lemma_change_members(event, candidates, current, ip);
            assert(candidates.contains(ip));
        }
    }
}

/// What an evaluation reports leads from the remotes in use before to those in
/// use after: a remote came where it is in use only after, went where it was
/// only before, and stayed where it was both.
pub proof fn event_tells_the_difference(
    outcome: Evaluation,
    candidates: Seq<IpAddr>,
    current: Seq<IpAddr>,
    last_change: u128,
    now: u128,
    debounce: int,
    significant: bool,
    ip: IpAddr,
)
    requires
        is_outcome(outcome, candidates, current, last_change, now, debounce, significant),
    ensures
        outcome.event.added@.contains(ip) <==> outcome.active@.contains(ip) && !current.contains(
            ip,
        ),
        outcome.event.removed@.contains(ip) <==> current.contains(ip) && !outcome.active@.contains(
            ip,
        ),
        outcome.event.unchanged@.contains(ip) <==> current.contains(ip) && outcome.active@.contains(
            ip,
        ),
{
    if is_change(outcome.event, candidates, current) {
        lemma_change_members(outcome.event, candidates, current, ip);
        if !outcome.event.changes() {
            if candidates.contains(ip) && !current.contains(ip) {
                assert(outcome.event.added@.contains(ip));
            }
            if current.contains(ip) && !candidates.contains(ip) {
                assert(outcome.event.removed@.contains(ip));
            }
        }
    }
}

proof fn lemma_change_members(
    event: IpChangeEvent,
    candidates: Seq<IpAddr>,
    current: Seq<IpAddr>,
    ip: IpAddr,
)
    ensures
        is_change(event, candidates, current) ==> {
            &&& event.added@.contains(ip) <==> candidates.contains(ip) && !current.contains(ip)
            &&& event.removed@.contains(ip) <==> current.contains(ip) && !candidates.contains(ip)
            &&& event.unchanged@.contains(ip) <==> candidates.contains(ip) && current.contains(ip)
        },
{
    lemma_filter_members(candidates, |x: IpAddr| !current.contains(x), ip);
    lemma_filter_members(candidates, |x: IpAddr| current.contains(x), ip);
    lemma_filter_members(current, |x: IpAddr| !candidates.contains(x), ip);
}

proof fn lemma_filter_members(ips: Seq<IpAddr>, pred: spec_fn(IpAddr) -> bool, ip: IpAddr)
    ensures
        ips.filter(pred).contains(ip) <==> ips.contains(ip) && pred(ip),
{
    let kept = ips.filter(pred);
    if kept.contains(ip) {
        ips.lemma_filter_contains_rev(pred, ip);
        let w = choose|w: int| 0 <= w < kept.len() && kept[w] == ip;
        ips.lemma_filter_pred(pred, w);
    }
    if ips.contains(ip) && pred(ip) {
        let w = choose|w: int| 0 <= w < ips.len() && ips[w] == ip;
        ips.lemma_filter_contains(pred, w);
    }
}

/// Where no gain is asked for, every change is large. Else a change is large
/// exactly when it gains as much as is asked for, and more gain never makes it
/// small.
pub proof fn gains_decide(threshold: Double, gain: Double, more: Double)
    requires
        !threshold.is_nan_spec(),
        !gain.is_nan_spec(),
        !more.is_nan_spec(),
        gain.numeric_rank() <= more.numeric_rank(),
    ensures
        threshold.numeric_rank() <= 0 ==> is_significant(threshold, gain),
        threshold.numeric_rank() > 0 ==> (is_significant(threshold, gain)
            <==> gain.numeric_rank() >= threshold.numeric_rank()),
        is_significant(threshold, gain) ==> is_significant(threshold, more),
{
}

/// The first evaluation is followed by two seconds to settle, each other one by
/// the interval.
pub proof fn only_the_start_settles(first: bool)
    ensures
        wait_answer(first) is Settle <==> first,
        wait_answer(first) matches SelectorWait::Settle { secs } ==> secs == 2,
{
}

/// After a change the remotes that came and those that stayed are reported
/// together. Without one, those there are are reported at the start alone.
pub proof fn changes_are_reported(event: IpChangeEvent, first: bool)
    requires
        event.added@.len() + event.unchanged@.len() <= usize::MAX,
    ensures
        event.added@.len() > 0 || event.removed@.len() > 0 ==> (reported(event, first) matches Some(
            n,
        ) && n == event.added@.len() + event.unchanged@.len()),
        event.added@.len() == 0 && event.removed@.len() == 0 ==> {
            &&& reported(event, first) is Some <==> first && event.unchanged@.len() > 0
            &&& reported(event, first) matches Some(n) ==> n == event.unchanged@.len()
        },
{
}

/// A change marks all remotes that are in use from then on; without one nothing
/// is marked.
pub proof fn changes_are_marked(outcome: Evaluation)
    ensures
        outcome.event.added@.len() > 0 || outcome.event.removed@.len() > 0 ==> marked(outcome)
            == outcome.active@,
        outcome.event.added@.len() == 0 && outcome.event.removed@.len() == 0 ==> marked(
            outcome,
        ).len() == 0,
{
}

} // verus!
