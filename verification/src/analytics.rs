//! Ranking data centres.
use crate::float_bits::Single;
use crate::model::SubnetQuality;
use crate::sort::{is_ranking, rank, ranking_reaches_all};
use crate::state::{lists, IpManager, NetKey};
use crate::text::same_str;
use vstd::prelude::*;

verus! {

/// What is known of the networks of one data centre.
#[derive(Debug)]
pub struct ColoStats {
    pub scores: Vec<Single>,
    pub total_latency: u64,
    pub total_jitter: u64,
    pub loss_rates: Vec<Single>,
    pub count: usize,
}

/// The sum of the latencies of some networks.
pub open spec fn total_latency(subnets: Seq<SubnetQuality>) -> int
    decreases subnets.len(),
{
    if subnets.len() == 0 {
        0
    } else {
        total_latency(subnets.drop_last()) + subnets.last().avg_latency
    }
}

/// The sum of the jitters of some networks.
pub open spec fn total_jitter(subnets: Seq<SubnetQuality>) -> int
    decreases subnets.len(),
{
    if subnets.len() == 0 {
        0
    } else {
        total_jitter(subnets.drop_last()) + subnets.last().avg_jitter
    }
}

/// A sum that stops growing at the largest value there is.
pub open spec fn capped(sum: int) -> int {
    if sum <= u64::MAX {
        sum
    } else {
        u64::MAX as int
    }
}

/// The scores of some networks.
pub open spec fn scores_of(subnets: Seq<SubnetQuality>) -> Seq<Single> {
    subnets.map_values(|q: SubnetQuality| q.score)
}

/// The loss rates of some networks.
pub open spec fn loss_rates_of(subnets: Seq<SubnetQuality>) -> Seq<Single> {
    subnets.map_values(|q: SubnetQuality| q.avg_loss_rate)
}

impl Default for ColoStats {
    fn default() -> (s: Self)
        ensures
            s.sums_up(Seq::empty()),
            s.count == 0,
            s.total_latency == 0,
            s.total_jitter == 0,
            s.scores@.len() == 0,
            s.loss_rates@.len() == 0,
    {
        let s: ColoStats = ColoStats {
            scores: Vec::new(),
            total_latency: 0,
            total_jitter: 0,
            loss_rates: Vec::new(),
            count: 0,
        };
        assert(s.scores@ =~= scores_of(Seq::empty()));
        assert(s.loss_rates@ =~= loss_rates_of(Seq::empty()));
        s
    }
}

impl ColoStats {
    /// Whether this sums up some networks.
    pub open spec fn sums_up(self, subnets: Seq<SubnetQuality>) -> bool {
        &&& self.count == subnets.len()
        &&& self.scores@ == scores_of(subnets)
        &&& self.loss_rates@ == loss_rates_of(subnets)
        &&& self.total_latency == capped(total_latency(subnets))
        &&& self.total_jitter == capped(total_jitter(subnets))
        &&& total_latency(subnets) >= 0
        &&& total_jitter(subnets) >= 0
    }

    /// Takes in a network.
    pub fn add(&mut self, subnet: &SubnetQuality)
        ensures
            final(self).scores@ == old(self).scores@.push(subnet.score),
            final(self).loss_rates@ == old(self).loss_rates@.push(subnet.avg_loss_rate),
            final(self).total_latency == capped(old(self).total_latency + subnet.avg_latency),
            final(self).total_jitter == capped(old(self).total_jitter + subnet.avg_jitter),
            final(self).count == if old(self).count < usize::MAX {
                old(self).count + 1
            } else {
                usize::MAX as int
            },
            forall|subnets: Seq<SubnetQuality>| #[trigger]
                old(self).sums_up(subnets) && subnets.len() < usize::MAX ==> final(self).sums_up(
                    subnets.push(*subnet),
                ),
    {
        let ghost before: ColoStats = *self;
        self.scores.push(subnet.score);
        self.total_latency = self.total_latency.saturating_add(subnet.avg_latency);
        self.total_jitter = self.total_jitter.saturating_add(subnet.avg_jitter);
        self.loss_rates.push(subnet.avg_loss_rate);
        self.count = self.count.saturating_add(1);
        proof {
            assert forall|subnets: Seq<SubnetQuality>| #[trigger]
                before.sums_up(subnets) && subnets.len() < usize::MAX implies self.sums_up(
                subnets.push(*subnet),
            ) by {
                let more = subnets.push(*subnet);
                assert(more.drop_last() =~= subnets);
                assert(self.scores@ =~= scores_of(more));
                assert(self.loss_rates@ =~= loss_rates_of(more));
            }
        }
    }

    /// The mean score, as `mean` gives it; zero without networks.
    pub fn avg_score(&self, mean: impl Fn(&Vec<Single>) -> Single) -> (r: Single)
        requires
            call_requires(mean, (&self.scores,)),
        ensures
            self.count == 0 ==> r == (Single { bits: 0 }),
            self.count > 0 ==> call_ensures(mean, (&self.scores,), r),
    {
        if self.count == 0 {
            Single { bits: 0 }
        } else {
            mean(&self.scores)
        }
    }

    /// The whole part of the mean latency; zero without networks.
    pub fn avg_latency(&self) -> (r: u64)
        ensures
            r == shared(self.total_latency, self.count),
    {
        if self.count == 0 {
            0
        } else {
            self.total_latency / self.count as u64
        }
    }

    /// The whole part of the mean jitter; zero without networks.
    pub fn avg_jitter(&self) -> (r: u64)
        ensures
            r == shared(self.total_jitter, self.count),
    {
        if self.count == 0 {
            0
        } else {
            self.total_jitter / self.count as u64
        }
    }

    /// The mean loss rate, as `mean` gives it; zero without networks.
    pub fn avg_loss_rate(&self, mean: impl Fn(&Vec<Single>) -> Single) -> (r: Single)
        requires
            call_requires(mean, (&self.loss_rates,)),
        ensures
            self.count == 0 ==> r == (Single { bits: 0 }),
            self.count > 0 ==> call_ensures(mean, (&self.loss_rates,), r),
    {
        if self.count == 0 {
            Single { bits: 0 }
        } else {
            mean(&self.loss_rates)
        }
    }
}

/// The whole part of a sum over as many values; zero of nothing.
pub open spec fn shared(sum: u64, count: usize) -> int {
    if count == 0 {
        0
    } else {
        sum as int / count as int
    }
}

/// One data centre in the ranking.
#[derive(Debug)]
pub struct ColoRankingEntry {
    pub colo: String,
    pub avg_score: Single,
    pub avg_latency: u64,
    pub avg_jitter: u64,
    pub avg_loss_rate: Single,
    pub subnet_count: usize,
}

impl Clone for ColoRankingEntry {
    fn clone(&self) -> (r: Self)
        ensures
            r == *self,
    {
        ColoRankingEntry {
            colo: self.colo.clone(),
            avg_score: self.avg_score,
            avg_latency: self.avg_latency,
            avg_jitter: self.avg_jitter,
            avg_loss_rate: self.avg_loss_rate,
            subnet_count: self.subnet_count,
        }
    }
}

/// The networks of a data centre, in order.
pub open spec fn members(subnets: Seq<SubnetQuality>, colo: Seq<char>) -> Seq<SubnetQuality> {
    subnets.filter(|q: SubnetQuality| q.colo@ == colo)
}

/// Whether a mean is one that `mean` gives for some values.
pub open spec fn is_mean<F: Fn(&Vec<Single>) -> Single>(
    r: Single,
    values: Seq<Single>,
    mean: F,
) -> bool {
    exists|list: Vec<Single>| list@ == values && #[trigger] call_ensures(mean, (&list,), r)
}

/// Whether an entry sums up its data centre, which has a network.
pub open spec fn is_entry<F: Fn(&Vec<Single>) -> Single>(
    entry: ColoRankingEntry,
    subnets: Seq<SubnetQuality>,
    mean: F,
) -> bool {
    let own = members(subnets, entry.colo@);
    &&& own.len() > 0
    &&& entry.subnet_count == own.len()
    &&& entry.avg_latency == capped(total_latency(own)) / (own.len() as int)
    &&& entry.avg_jitter == capped(total_jitter(own)) / (own.len() as int)
    &&& is_mean(entry.avg_score, scores_of(own), mean)
    &&& is_mean(entry.avg_loss_rate, loss_rates_of(own), mean)
}

/// Whether a data centre is in a list.
pub open spec fn is_ranked(ranking: Seq<ColoRankingEntry>, colo: Seq<char>) -> bool {
    exists|a: int| 0 <= a < ranking.len() && (#[trigger] ranking[a]).colo@ == colo
}

/// Whether a list has every data centre once, summed up, best first.
pub open spec fn is_colo_ranking<F: Fn(&Vec<Single>) -> Single>(
    ranking: Seq<ColoRankingEntry>,
    subnets: Seq<SubnetQuality>,
    mean: F,
) -> bool {
    &&& forall|a: int| 0 <= a < ranking.len() ==> is_entry(#[trigger] ranking[a], subnets, mean)
    &&& forall|a: int, b: int|
        0 <= a < b < ranking.len() ==> (#[trigger] ranking[a]).colo@ != (
        #[trigger] ranking[b]).colo@
    &&& forall|i: int|
        0 <= i < subnets.len() ==> is_ranked(ranking, (#[trigger] subnets[i]).colo@)
    &&& forall|a: int, b: int|
        0 <= a < b < ranking.len() ==> (#[trigger] ranking[a]).avg_score.total_rank() >= (
        #[trigger] ranking[b]).avg_score.total_rank()
}

spec fn has_group(groups: Seq<(String, ColoStats)>, colo: Seq<char>) -> bool {
    exists|g: int| 0 <= g < groups.len() && (#[trigger] groups[g]).0@ == colo
}

/// Whether groups sum up the data centres of some networks, each once.
spec fn is_grouping(groups: Seq<(String, ColoStats)>, subnets: Seq<SubnetQuality>) -> bool {
    &&& forall|g: int|
        0 <= g < groups.len() ==> (#[trigger] groups[g]).1.sums_up(members(subnets, groups[g].0@))
            && groups[g].1.count > 0
    &&& forall|g: int, h: int|
        0 <= g < h < groups.len() ==> (#[trigger] groups[g]).0@ != (#[trigger] groups[h]).0@
    &&& forall|i: int| 0 <= i < subnets.len() ==> has_group(groups, (#[trigger] subnets[i]).colo@)
}

proof fn lemma_members_push(subnets: Seq<SubnetQuality>, q: SubnetQuality, colo: Seq<char>)
    ensures
        members(subnets.push(q), colo) == if q.colo@ == colo {
            members(subnets, colo).push(q)
        } else {
            members(subnets, colo)
        },
{
    reveal(Seq::filter);
    assert(subnets.push(q).drop_last() =~= subnets);
}

proof fn lemma_members_none(subnets: Seq<SubnetQuality>, colo: Seq<char>)
    requires
        forall|i: int| 0 <= i < subnets.len() ==> (#[trigger] subnets[i]).colo@ != colo,
    ensures
        members(subnets, colo) == Seq::<SubnetQuality>::empty(),
    decreases subnets.len(),
{
    reveal(Seq::filter);
    if subnets.len() > 0 {
        lemma_members_none(subnets.drop_last(), colo);
        assert(subnets.last() == subnets[subnets.len() - 1]);
    }
}

/// Groups networks by data centre.
fn group_by_colo(subnets: &Vec<SubnetQuality>) -> (groups: Vec<(String, ColoStats)>)
    ensures
        is_grouping(groups@, subnets@),
{
    let mut groups: Vec<(String, ColoStats)> = Vec::new();
    let mut i: usize = 0;
    while i < subnets.len()
        invariant
            i <= subnets@.len(),
            is_grouping(groups@, subnets@.take(i as int)),
        decreases subnets@.len() - i,
    {
        let ghost seen: Seq<SubnetQuality> = subnets@.take(i as int);
        let ghost before: Seq<(String, ColoStats)> = groups@;
        assert(subnets@.take(i + 1) =~= seen.push(subnets@[i as int]));
        let mut g: usize = 0;
        while g < groups.len() && !same_str(groups[g].0.as_str(), subnets[i].colo.as_str())
            invariant
                i < subnets@.len(),
                g <= groups@.len(),
                forall|h: int|
                    0 <= h < g ==> (#[trigger] groups@[h]).0@ != subnets@[i as int].colo@,
            decreases groups@.len() - g,
        {
            g = g + 1;
        }
        if g == groups.len() {
            let mut stats: ColoStats = ColoStats::default();
            stats.add(&subnets[i]);
            proof {
                assert forall|j: int| 0 <= j < seen.len() implies (#[trigger] seen[j]).colo@
                    != subnets@[i as int].colo@ by {
                    assert(has_group(before, seen[j].colo@));
                    let h = choose|h: int|
                        0 <= h < before.len() && (#[trigger] before[h]).0@ == seen[j].colo@;
                }
                lemma_members_none(seen, subnets@[i as int].colo@);
            }
            groups.push((subnets[i].colo.clone(), stats));
        } else {
            groups[g].1.add(&subnets[i]);
        }
        proof {
            let now = seen.push(subnets@[i as int]);
            assert(groups@.len() == if g == before.len() {
                before.len() + 1
            } else {
                before.len()
            });
            assert forall|h: int| 0 <= h < groups@.len() implies (#[trigger] groups@[h]).1.sums_up(
                members(now, groups@[h].0@),
            ) && groups@[h].1.count > 0 by {
                lemma_members_push(seen, subnets@[i as int], groups@[h].0@);
                if h != g {
                    assert(groups@[h] == before[h]);
                    assert(before[h].0@ != subnets@[i as int].colo@) by {
                        if h > g {
                            assert(before[g as int].0@ != before[h].0@);
                        }
                    }
                } else if g < before.len() {
                    assert(before[h].1.sums_up(members(seen, before[h].0@)));
                    seen.lemma_filter_len(|q: SubnetQuality| q.colo@ == before[h].0@);
                }
            }
            assert forall|a: int, b: int| 0 <= a < b < groups@.len() implies (
            #[trigger] groups@[a]).0@ != (#[trigger] groups@[b]).0@ by {
                if b < before.len() {
                    assert(before[a].0@ != before[b].0@);
                }
            }
            assert forall|j: int| 0 <= j < now.len() implies has_group(
                groups@,
                (#[trigger] now[j]).colo@,
            ) by {
                if j < seen.len() {
                    assert(seen[j] == now[j]);
                    assert(has_group(before, seen[j].colo@));
                    let h = choose|h: int|
                        0 <= h < before.len() && (#[trigger] before[h]).0@ == seen[j].colo@;
                    assert(groups@[h].0@ == now[j].colo@);
                } else {
                    assert(groups@[g as int].0@ == now[j].colo@);
                }
            }
        }
        i = i + 1;
    }
    assert(subnets@.take(i as int) =~= subnets@);
    groups
}

/// Ranks the data centres of some networks by their mean scores, best first.
pub fn rank_colos(subnets: &Vec<SubnetQuality>, mean: impl Fn(&Vec<Single>) -> Single) -> (ranking:
    Vec<ColoRankingEntry>)
    requires
        forall|list: &Vec<Single>| #[trigger] call_requires(mean, (list,)),
    ensures
        is_colo_ranking(ranking@, subnets@, mean),
{
    let groups: Vec<(String, ColoStats)> = group_by_colo(subnets);
    let mut entries: Vec<ColoRankingEntry> = Vec::new();
    let mut keys: Vec<(i64, i128)> = Vec::new();
    let mut g: usize = 0;
    while g < groups.len()
        invariant
            g <= groups@.len(),
            is_grouping(groups@, subnets@),
            forall|list: &Vec<Single>| #[trigger] call_requires(mean, (list,)),
            entries@.len() == keys@.len() == g,
            forall|h: int|
                0 <= h < g ==> is_entry(#[trigger] entries@[h], subnets@, mean)
                    && entries@[h].colo@ == groups@[h].0@,
            forall|h: int|
                0 <= h < g ==> (#[trigger] keys@[h]).0 == -entries@[h].avg_score.total_rank()
                    && keys@[h].1 == 0,
        decreases groups@.len() - g,
    {
        let stats: &ColoStats = &groups[g].1;
        assert(stats.sums_up(members(subnets@, groups@[g as int].0@)));
        let avg_score: Single = stats.avg_score(&mean);
        let avg_loss_rate: Single = stats.avg_loss_rate(&mean);
        assert(is_mean(avg_score, stats.scores@, mean));
        assert(is_mean(avg_loss_rate, stats.loss_rates@, mean));
        let entry: ColoRankingEntry = ColoRankingEntry {
            colo: groups[g].0.clone(),
            avg_score,
            avg_latency: stats.avg_latency(),
            avg_jitter: stats.avg_jitter(),
            avg_loss_rate,
            subnet_count: stats.count,
        };
        keys.push((-avg_score.total_key(), 0));
        entries.push(entry);
        g = g + 1;
    }
    let order: Vec<usize> = rank(&keys);
    let mut ranking: Vec<ColoRankingEntry> = Vec::new();
    let mut n: usize = 0;
    while n < order.len()
        invariant
            n <= order@.len(),
            order@.len() == entries@.len() == keys@.len(),
            is_ranking(order@, keys@),
            ranking@.len() == n,
            forall|j: int| 0 <= j < n ==> #[trigger] ranking@[j] == entries@[order@[j] as int],
        decreases order@.len() - n,
    {
        ranking.push(entries[order[n]].clone());
        n = n + 1;
    }
    proof {
        assert forall|a: int, b: int| 0 <= a < b < ranking@.len() implies (
        #[trigger] ranking@[a]).colo@ != (#[trigger] ranking@[b]).colo@
            && ranking@[a].avg_score.total_rank() >= ranking@[b].avg_score.total_rank() by {
            let x = order@[a];
            let y = order@[b];
            assert(x != y);
            assert(entries@[x as int].colo@ == groups@[x as int].0@);
            assert(entries@[y as int].colo@ == groups@[y as int].0@);
            if x < y {
                assert(groups@[x as int].0@ != groups@[y as int].0@);
            } else {
                assert(groups@[y as int].0@ != groups@[x as int].0@);
            }
            assert(crate::sort::key_at_most(keys@[x as int], keys@[y as int]));
        }
        assert forall|i: int| 0 <= i < subnets@.len() implies is_ranked(
            ranking@,
            (#[trigger] subnets@[i]).colo@,
        ) by {
            assert(has_group(groups@, subnets@[i].colo@));
            let h = choose|h: int|
                0 <= h < groups@.len() && (#[trigger] groups@[h]).0@ == subnets@[i].colo@;
            ranking_reaches_all(order@, keys@, h);
            let a = choose|a: int| 0 <= a < order@.len() && #[trigger] order@[a] == h;
            assert(entries@[h].colo@ == groups@[h].0@);
            assert(ranking@[a].colo@ == subnets@[i].colo@);
        }
    }
    ranking
}

/// Ranks the data centres of all known networks by their mean scores, best
/// first.
pub fn get_colo_ranking(manager: &IpManager, mean: impl Fn(&Vec<Single>) -> Single) -> (ranking:
    Vec<ColoRankingEntry>)
    requires
        forall|list: &Vec<Single>| #[trigger] call_requires(mean, (list,)),
    ensures
        exists|entries: Seq<(NetKey, SubnetQuality)>| #[trigger]
            lists(entries, manager.contents()) && is_colo_ranking(
                ranking@,
                entries.map_values(|e: (NetKey, SubnetQuality)| e.1),
                mean,
            ),
{
    let subnets: Vec<SubnetQuality> = manager.get_all_subnets();
    rank_colos(&subnets, mean)
}

/// The sums over networks are those over the parts that these fall into, and
/// over one network they are its own values. A sum stops at the largest value.
pub proof fn totals_add_up(a: Seq<SubnetQuality>, b: Seq<SubnetQuality>, q: SubnetQuality, sum: nat)
    ensures
        total_latency(a + b) == total_latency(a) + total_latency(b),
        total_jitter(a + b) == total_jitter(a) + total_jitter(b),
        total_latency(seq![q]) == q.avg_latency,
        total_jitter(seq![q]) == q.avg_jitter,
        sum <= u64::MAX ==> capped(sum as int) == sum,
        sum > u64::MAX ==> capped(sum as int) == u64::MAX,
    decreases b.len(),
{
    reveal_with_fuel(total_latency, 2);
    reveal_with_fuel(total_jitter, 2);
    assert(seq![q].drop_last() =~= Seq::<SubnetQuality>::empty());
    if b.len() == 0 {
        assert(a + b =~= a);
    } else {
        totals_add_up(a, b.drop_last(), q, sum);
        assert((a + b).drop_last() =~= a + b.drop_last());
        assert((a + b).last() == b.last());
    }
}

/// A data centre has the networks that name it, in order.
pub proof fn members_name_their_data_centre(
    a: Seq<SubnetQuality>,
    b: Seq<SubnetQuality>,
    q: SubnetQuality,
    colo: Seq<char>,
)
    ensures
        members(a + b, colo) == members(a, colo) + members(b, colo),
        q.colo@ == colo ==> members(seq![q], colo) == seq![q],
        q.colo@ != colo ==> members(seq![q], colo).len() == 0,
{
    let pred = |s: SubnetQuality| s.colo@ == colo;
    Seq::filter_distributes_over_add(a, b, pred);
    let none: Seq<SubnetQuality> = Seq::empty();
    lemma_members_push(none, q, colo);
    lemma_members_none(none, colo);
    assert(none.push(q) =~= seq![q]);
}

/// A mean, as often as there are values, is the sum but for less than one of
/// each; of nothing it is zero.
pub proof fn means_share_the_sum(sum: u64, count: usize)
    ensures
        count == 0 ==> shared(sum, count) == 0,
        count > 0 ==> shared(sum, count) * count <= sum < (shared(sum, count) + 1) * count,
{
    if count > 0 {
        let mean: int = shared(sum, count);
        assert(mean * count <= sum < (mean + 1) * count) by (nonlinear_arith)
            requires
                count > 0,
                mean == sum as int / count as int,
        ;
    }
}

/// A ranking has each data centre that has a network, once, and no other; a
/// better mean score comes before a worse one. An entry counts the networks of
/// its data centre, and its latency and jitter are the means of theirs.
pub proof fn ranking_sums_up_each_data_centre<F: Fn(&Vec<Single>) -> Single>(
    ranking: Seq<ColoRankingEntry>,
    subnets: Seq<SubnetQuality>,
    mean: F,
    a: int,
    b: int,
    i: int,
)
    requires
        is_colo_ranking(ranking, subnets, mean),
        0 <= a < b < ranking.len(),
        0 <= i < subnets.len(),
    ensures
        ranking[a].avg_score.total_rank() >= ranking[b].avg_score.total_rank(),
        ranking[a].colo@ != ranking[b].colo@,
        exists|c: int| 0 <= c < ranking.len() && (#[trigger] ranking[c]).colo@ == subnets[i].colo@,
        ({
            let own = members(subnets, ranking[a].colo@);
            let n = own.len() as int;
            &&& n > 0
            &&& ranking[a].subnet_count == n
            &&& total_latency(own) <= u64::MAX ==> ranking[a].avg_latency * n <= total_latency(own)
                < (ranking[a].avg_latency + 1) * n
            &&& total_jitter(own) <= u64::MAX ==> ranking[a].avg_jitter * n <= total_jitter(own) < (
            ranking[a].avg_jitter + 1) * n
        }),
{
    assert(is_ranked(ranking, subnets[i].colo@));
    assert(is_entry(ranking[a], subnets, mean));
    let own = members(subnets, ranking[a].colo@);
    let n: int = own.len() as int;
    let latency: int = capped(total_latency(own));
    let jitter: int = capped(total_jitter(own));
    assert((latency / n) * n <= latency < (latency / n + 1) * n && (jitter / n) * n <= jitter < (
    jitter / n + 1) * n) by (nonlinear_arith)
        requires
            n > 0,
    ;
}

} // verus!
