//! Turning networks into probe targets.
use crate::float_bits::Single;
use crate::model::{is_primary_colo, jitter_sum, latency_sum, IpQuality, SubnetQuality};
use crate::net::{
    aggregate, covered, filled, ipnet_aggregate, subnets_cover, subnets_disjoint, subnets_wf,
    IpAddr, IpNet,
};
use crate::random::shuffle;
use crate::scanner::results::{with_sample, with_samples, Samples, ScanResults};
use crate::state::{
    are_best, best_count, cutoff_in_range, is_eviction, net_key, unexpired, with_records, IpManager,
    NetKey,
};
use crate::url::{parse_url, url_parts, UrlParts};
use crate::utils::{generate_random_ip_in_subnet, is_host_of};
use vstd::prelude::*;

verus! {

/// The prefix length of the networks that a focused scan works with.
pub const FOCUSED_SCAN_SUBNET_MASK: u8 = 24;

/// What one network contributes to a split: itself where its prefix is long
/// enough or the mask is too long for its family, else its parts.
pub open spec fn pieces(net: IpNet, mask: nat) -> Seq<IpNet> {
    if net.prefix() >= mask || mask > net.width() {
        seq![net]
    } else {
        net.subnets_spec(mask)
    }
}

/// The contributions of all networks, one after another.
pub open spec fn split_spec(nets: Seq<IpNet>, mask: nat) -> Seq<IpNet>
    decreases nets.len(),
{
    if nets.len() == 0 {
        Seq::empty()
    } else {
        split_spec(nets.drop_last(), mask) + pieces(nets.last(), mask)
    }
}

/// Splits each network into networks of the given prefix length.
pub fn split_subnets(nets: &Vec<IpNet>, mask: u8) -> (r: Vec<IpNet>)
    requires
        forall|i: int| 0 <= i < nets@.len() ==> (#[trigger] nets@[i]).wf(),
    ensures
        r@ == split_spec(nets@, mask as nat),
{
    let mut out: Vec<IpNet> = Vec::new();
    let mut i: usize = 0;
    while i < nets.len()
        invariant
            i <= nets@.len(),
            forall|j: int| 0 <= j < nets@.len() ==> (#[trigger] nets@[j]).wf(),
            out@ == split_spec(nets@.take(i as int), mask as nat),
        decreases nets@.len() - i,
    {
        let net: IpNet = nets[i];
        assert(nets@.take(i + 1).drop_last() =~= nets@.take(i as int));
        assert(nets@.take(i + 1).last() == net);
        if net.prefix_len() >= mask {
            out.push(net);
        } else {
            match net.subnets(mask) {
                Ok(mut parts) => out.append(&mut parts),
                Err(_) => out.push(net),
            }
        }
        assert(out@ =~= split_spec(nets@.take(i + 1), mask as nat));
        i = i + 1;
    }
    assert(nets@.take(i as int) =~= nets@);
    out
}

/// Joins networks that overlap or touch, and splits what results into networks
/// of the given prefix length. A smaller one results only where the networks
/// hold a part of such a network.
pub fn split_cidrs_to_subnets(cidrs: Vec<IpNet>, mask: u8) -> (r: Vec<IpNet>)
    requires
        forall|i: int| 0 <= i < cidrs@.len() ==> (#[trigger] cidrs@[i]).wf(),
    ensures
        r@ == split_spec(ipnet_aggregate(cidrs@), mask as nat),
        forall|ip: IpAddr| #[trigger] covered(r@, ip) <==> covered(cidrs@, ip),
        forall|i: int| 0 <= i < r@.len() ==> (#[trigger] r@[i]).wf(),
        forall|i: int|
            0 <= i < r@.len() ==> (#[trigger] r@[i]).prefix() >= mask || r@[i].width() < mask,
        disjoint(r@),
        forall|i: int|
            0 <= i < r@.len() && (#[trigger] r@[i]).prefix() > mask ==> !filled(
                r@[i].widened(mask as nat),
                cidrs@,
            ),
{
    let aggregated: Vec<IpNet> = aggregate(&cidrs);
    let subnets: Vec<IpNet> = split_subnets(&aggregated, mask);
    proof {
        assert forall|ip: IpAddr| #[trigger] covered(subnets@, ip) <==> covered(cidrs@, ip) by {
            split_keeps_addresses(aggregated@, mask as nat, ip);
            assert(covered(aggregated@, ip) <==> covered(cidrs@, ip));
        }
        assert forall|i: int| 0 <= i < subnets@.len() implies (#[trigger] subnets@[i]).wf() && (
        subnets@[i].prefix() >= mask || subnets@[i].width() < mask) by {
            split_reaches_mask(aggregated@, mask as nat, i);
        }
        split_keeps_disjoint(aggregated@, mask as nat);
        assert forall|i: int|
            0 <= i < subnets@.len() && (#[trigger] subnets@[i]).prefix() > mask implies !filled(
            subnets@[i].widened(mask as nat),
            cidrs@,
        ) by {
            split_keeps_small_networks(aggregated@, mask as nat, i);
            let j = choose|j: int|
                0 <= j < aggregated@.len() && #[trigger] aggregated@[j] == subnets@[i];
            assert(!filled(aggregated@[j].widened(mask as nat), cidrs@));
        }
    }
    subnets
}

/// The networks of a list of targets.
pub open spec fn nets_of(targets: Seq<(IpNet, IpAddr)>) -> Seq<IpNet> {
    targets.map_values(|t: (IpNet, IpAddr)| t.0)
}

/// The targets of one round of a scan over `n` networks.
pub open spec fn round(targets: Seq<(IpNet, IpAddr)>, n: int, k: int) -> Seq<(IpNet, IpAddr)> {
    targets.subrange(k * n, k * n + n)
}

/// Lists the targets of a scan: in each round every network once, in random
/// order, with an address drawn from it.
pub fn generate_scan_targets(
    subnets: Vec<IpNet>,
    samples: usize,
    rng: &mut rand::rngs::ThreadRng,
) -> (targets: Vec<(IpNet, IpAddr)>)
    requires
        forall|i: int| 0 <= i < subnets@.len() ==> (#[trigger] subnets@[i]).wf(),
    ensures
        targets@.len() == samples * subnets@.len(),
        forall|i: int|
            0 <= i < targets@.len() ==> is_host_of((#[trigger] targets@[i]).1, targets@[i].0),
        forall|k: int|
            0 <= k < samples ==> nets_of(
                #[trigger] round(targets@, subnets@.len() as int, k),
            ).to_multiset() == subnets@.to_multiset(),
{
    broadcast use vstd::seq_lib::group_to_multiset_ensures;

    let ghost all: Seq<IpNet> = subnets@;
    let ghost n: int = subnets@.len() as int;
    let mut subnets: Vec<IpNet> = subnets;
    let mut targets: Vec<(IpNet, IpAddr)> = Vec::new();
    let mut k: usize = 0;
    assert(0 * n == 0);
    while k < samples
        invariant
            k <= samples,
            n == all.len(),
            forall|i: int| 0 <= i < n ==> (#[trigger] all[i]).wf(),
            subnets@.to_multiset() == all.to_multiset(),
            targets@.len() == k * n,
            forall|i: int|
                0 <= i < targets@.len() ==> is_host_of((#[trigger] targets@[i]).1, targets@[i].0),
            forall|j: int|
                0 <= j < k ==> nets_of(#[trigger] round(targets@, n, j)).to_multiset()
                    == all.to_multiset(),
        decreases samples - k,
    {
        let ghost done: Seq<(IpNet, IpAddr)> = targets@;
        shuffle(rng, &mut subnets);
        proof {
            all.to_multiset_ensures();
            subnets@.to_multiset_ensures();
            assert forall|i: int| 0 <= i < subnets@.len() implies (#[trigger] subnets@[i]).wf() by {
                assert(subnets@.contains(subnets@[i]));
                assert(all.to_multiset().contains(subnets@[i]));
                assert(all.contains(subnets@[i]));
                let w = choose|w: int| 0 <= w < all.len() && all[w] == subnets@[i];
                assert(all[w].wf());
            }
        }
        let mut i: usize = 0;
        while i < subnets.len()
            invariant
                i <= subnets@.len() == n,
                forall|j: int| 0 <= j < subnets@.len() ==> (#[trigger] subnets@[j]).wf(),
                done.len() == k * n,
                targets@.len() == done.len() + i,
                targets@.take(done.len() as int) =~= done,
                forall|j: int|
                    0 <= j < i ==> (#[trigger] targets@[done.len() + j]).0 == subnets@[j],
                forall|j: int|
                    0 <= j < targets@.len() ==> is_host_of(
                        (#[trigger] targets@[j]).1,
                        targets@[j].0,
                    ),
            decreases n - i,
        {
            let subnet: IpNet = subnets[i];
            let ip: IpAddr = generate_random_ip_in_subnet(&subnet, rng);
            targets.push((subnet, ip));
            i = i + 1;
        }
        proof {
            assert((k + 1) * n == k * n + n) by (nonlinear_arith);
            assert(nets_of(round(targets@, n, k as int)) =~= subnets@) by {
                assert forall|j: int| 0 <= j < n implies nets_of(round(targets@, n, k as int))[j]
                    == subnets@[j] by {
                    assert(targets@[done.len() + j].0 == subnets@[j]);
                }
            }
            assert forall|j: int| 0 <= j < k + 1 implies nets_of(
                #[trigger] round(targets@, n, j),
            ).to_multiset() == all.to_multiset() by {
                if j < k {
                    assert(0 <= j * n && j * n + n <= k * n) by (nonlinear_arith)
                        requires
                            0 <= j < k,
                            n >= 0,
                    ;
                    assert(round(targets@, n, j) =~= round(done, n, j)) by {
                        assert forall|x: int| 0 <= x < n implies round(targets@, n, j)[x] == round(
                            done,
                            n,
                            j,
                        )[x] by {
                            assert(targets@.take(done.len() as int)[j * n + x] == done[j * n + x]);
                        }
                    }
                }
            }
        }
        k = k + 1;
    }
    targets
}

/// No two networks of the list share an address.
pub open spec fn disjoint(nets: Seq<IpNet>) -> bool {
    forall|i: int, j: int, ip: IpAddr|
        0 <= i < j < nets.len() ==> !(#[trigger] nets[i].has(ip) && #[trigger] nets[j].has(ip))
}

/// Splitting loses and invents no address.
pub proof fn split_keeps_addresses(nets: Seq<IpNet>, mask: nat, ip: IpAddr)
    requires
        forall|i: int| 0 <= i < nets.len() ==> (#[trigger] nets[i]).wf(),
    ensures
        covered(split_spec(nets, mask), ip) <==> covered(nets, ip),
    decreases nets.len(),
{
    if nets.len() > 0 {
        let init = nets.drop_last();
        let last = nets.last();
        let left = split_spec(init, mask);
        let right = pieces(last, mask);
        assert forall|i: int| 0 <= i < init.len() implies (#[trigger] init[i]).wf() by {
            assert(init[i] == nets[i]);
        }
        split_keeps_addresses(init, mask, ip);
        lemma_pieces_cover(last, mask, ip);
        if covered(nets, ip) {
            let i = choose|i: int| 0 <= i < nets.len() && (#[trigger] nets[i]).has(ip);
            if i < init.len() {
                assert(init[i].has(ip));
                let k = choose|k: int| 0 <= k < left.len() && (#[trigger] left[k]).has(ip);
                assert((left + right)[k].has(ip));
            } else {
                let k = choose|k: int| 0 <= k < right.len() && (#[trigger] right[k]).has(ip);
                assert((left + right)[left.len() + k].has(ip));
            }
        }
        if covered(left + right, ip) {
            let k = choose|k: int|
                0 <= k < (left + right).len() && (#[trigger] (left + right)[k]).has(ip);
            if k < left.len() {
                assert(left[k].has(ip));
                let i = choose|i: int| 0 <= i < init.len() && (#[trigger] init[i]).has(ip);
                assert(nets[i].has(ip));
            } else {
                assert(right[k - left.len()].has(ip));
                assert(nets[nets.len() - 1].has(ip));
            }
        }
    }
}

proof fn lemma_pieces_cover(net: IpNet, mask: nat, ip: IpAddr)
    requires
        net.wf(),
    ensures
        net.has(ip) <==> covered(pieces(net, mask), ip),
{
    if net.prefix() >= mask || mask > net.width() {
        assert(pieces(net, mask)[0] == net);
    } else {
        subnets_cover(net, mask, ip);
    }
}

/// Every network of a split is as long as was asked, unless its family has no
/// prefix of that length.
pub proof fn split_reaches_mask(nets: Seq<IpNet>, mask: nat, i: int)
    requires
        forall|j: int| 0 <= j < nets.len() ==> (#[trigger] nets[j]).wf(),
        0 <= i < split_spec(nets, mask).len(),
    ensures
        split_spec(nets, mask)[i].wf(),
        split_spec(nets, mask)[i].prefix() >= mask || split_spec(nets, mask)[i].width() < mask,
    decreases nets.len(),
{
    let init = nets.drop_last();
    let last = nets.last();
    let left = split_spec(init, mask);
    assert forall|j: int| 0 <= j < init.len() implies (#[trigger] init[j]).wf() by {
        assert(init[j] == nets[j]);
    }
    if i < left.len() {
        split_reaches_mask(init, mask, i);
    } else if last.prefix() < mask && mask <= last.width() {
        subnets_wf(last, mask, i - left.len());
    }
}

/// A network of a split with a longer prefix than was asked for is one that was
/// there before.
pub proof fn split_keeps_small_networks(nets: Seq<IpNet>, mask: nat, i: int)
    requires
        forall|j: int| 0 <= j < nets.len() ==> (#[trigger] nets[j]).wf(),
        0 <= i < split_spec(nets, mask).len(),
        split_spec(nets, mask)[i].prefix() > mask,
    ensures
        exists|j: int| 0 <= j < nets.len() && #[trigger] nets[j] == split_spec(nets, mask)[i],
    decreases nets.len(),
{
    let init = nets.drop_last();
    let last = nets.last();
    let left = split_spec(init, mask);
    if i < left.len() {
        assert forall|j: int| 0 <= j < init.len() implies (#[trigger] init[j]).wf() by {
            assert(init[j] == nets[j]);
        }
        split_keeps_small_networks(init, mask, i);
        let j = choose|j: int| 0 <= j < init.len() && #[trigger] init[j] == left[i];
        assert(nets[j] == split_spec(nets, mask)[i]);
    } else {
        assert(pieces(last, mask)[i - left.len()] == split_spec(nets, mask)[i]);
        assert(nets[nets.len() - 1] == last);
    }
}

/// Splitting networks that share no address gives networks that share none.
pub proof fn split_keeps_disjoint(nets: Seq<IpNet>, mask: nat)
    requires
        forall|i: int| 0 <= i < nets.len() ==> (#[trigger] nets[i]).wf(),
        disjoint(nets),
    ensures
        disjoint(split_spec(nets, mask)),
    decreases nets.len(),
{
    if nets.len() > 0 {
        let init = nets.drop_last();
        let last = nets.last();
        let left = split_spec(init, mask);
        let right = pieces(last, mask);
        assert forall|i: int| 0 <= i < init.len() implies (#[trigger] init[i]).wf() by {
            assert(init[i] == nets[i]);
        }
        assert forall|i: int, j: int, ip: IpAddr| 0 <= i < j < init.len() implies !(
        #[trigger] init[i].has(ip) && #[trigger] init[j].has(ip)) by {
            assert(init[i] == nets[i] && init[j] == nets[j]);
        }
        split_keeps_disjoint(init, mask);
        let all = left + right;
        assert forall|i: int, j: int, ip: IpAddr| 0 <= i < j < all.len() implies !(
        #[trigger] all[i].has(ip) && #[trigger] all[j].has(ip)) by {
            if j < left.len() {
                assert(left[i] == all[i] && left[j] == all[j]);
                assert(!(left[i].has(ip) && left[j].has(ip)));
            } else if i >= left.len() {
                subnets_disjoint(last, mask, i - left.len(), j - left.len(), ip);
            } else if all[i].has(ip) && all[j].has(ip) {
                assert(left[i].has(ip));
                assert(right[j - left.len()].has(ip));
                lemma_pieces_cover(last, mask, ip);
                split_keeps_addresses(init, mask, ip);
                let k = choose|k: int| 0 <= k < init.len() && (#[trigger] init[k]).has(ip);
                assert(nets[k].has(ip) && nets[nets.len() - 1].has(ip));
            }
        }
    }
}

/// Where a scan sends its probes.
#[derive(Debug)]
pub struct ScanEndpoint {
    pub host: String,
    pub port: u16,
}

/// The host and the port that a URL gives, with no host as the empty text and
/// no port as 80.
pub open spec fn endpoint_of(parts: (Option<Seq<char>>, Option<u16>)) -> (Seq<char>, u16) {
    (
        match parts.0 {
            Some(host) => host,
            None => Seq::empty(),
        },
        match parts.1 {
            Some(port) => port,
            None => 80,
        },
    )
}

/// Fills in what a URL leaves out.
pub fn endpoint_of_parts(parts: UrlParts) -> (e: ScanEndpoint)
    ensures
        (e.host@, e.port) == endpoint_of(parts@),
{
    let host: String = match parts.host {
        Some(host) => host,
        None => String::new(),
    };
    assert(parts.host is None ==> host@ =~= Seq::<char>::empty());
    let port: u16 = match parts.port {
        Some(port) => port,
        None => 80,
    };
    ScanEndpoint { host, port }
}

/// Decides where a scan sends its probes; nowhere where there is nothing to
/// probe or the URL cannot be read, and then the scan counts nothing.
pub fn plan_scan(total_count: usize, trace_url: &str) -> (r: Option<ScanEndpoint>)
    ensures
        r is None <==> total_count == 0 || url_parts(trace_url@) is None,
        r matches Some(e) ==> Some((e.host@, e.port)) == (match url_parts(trace_url@) {
            Some(parts) => Some(endpoint_of(parts)),
            None => None,
        }),
{
    if total_count == 0 {
        return None;
    }
    match parse_url(trace_url) {
        Some(parts) => Some(endpoint_of_parts(parts)),
        None => None,
    }
}

/// The samples collected before they are handed on together.
pub const BATCH_SIZE: usize = 100;

/// Hands the samples of a batch on, in order, and empties it.
pub fn flush_batch(batch: &mut Vec<(IpNet, IpQuality)>, results: &mut ScanResults)
    requires
        old(results).wf(),
    ensures
        final(results).wf(),
        final(results)@ == with_samples(old(results)@, old(batch)@),
        final(batch)@ == Seq::<(IpNet, IpQuality)>::empty(),
{
    let ghost before: Samples = results@;
    let ghost all: Seq<(IpNet, IpQuality)> = batch@;
    let mut i: usize = 0;
    assert(all.take(0) =~= Seq::empty());
    while i < batch.len()
        invariant
            i <= batch@.len(),
            batch@ == all,
            results.wf(),
            results@ == with_samples(before, all.take(i as int)),
        decreases batch@.len() - i,
    {
        assert(all.take(i + 1).drop_last() =~= all.take(i as int));
        assert(all.take(i + 1).last() == all[i as int]);
        results.insert(batch[i].0, batch[i].1.clone());
        i = i + 1;
    }
    assert(all.take(i as int) =~= all);
    batch.clear();
}

/// The probes that succeeded, with what they found.
pub open spec fn successes(outcomes: Seq<(IpNet, Option<IpQuality>)>) -> Seq<(IpNet, IpQuality)>
    decreases outcomes.len(),
{
    if outcomes.len() == 0 {
        Seq::empty()
    } else {
        match outcomes.last().1 {
            Some(quality) => successes(outcomes.drop_last()).push((outcomes.last().0, quality)),
            None => successes(outcomes.drop_last()),
        }
    }
}

/// A scan while it runs.
pub struct ScanProgress {
    pub success_count: usize,
    pub total_scanned: usize,
    /// What has not been handed on yet.
    pub batch: Vec<(IpNet, IpQuality)>,
    pub results: ScanResults,
}

impl ScanProgress {
    /// Everything found so far.
    pub open spec fn found(self) -> Samples {
        with_samples(self.results@, self.batch@)
    }

    /// The results are well formed, no more probes succeeded than were made,
    /// and the batch is not full.
    pub open spec fn wf(self) -> bool {
        &&& self.results.wf()
        &&& self.success_count <= self.total_scanned
        &&& self.batch@.len() < BATCH_SIZE
    }

    /// Whether this is what the given outcomes leave.
    pub open spec fn holds(self, outcomes: Seq<(IpNet, Option<IpQuality>)>) -> bool {
        &&& self.wf()
        &&& self.total_scanned == outcomes.len()
        &&& self.success_count == successes(outcomes).len()
        &&& self.found() == with_samples(Samples::empty(), successes(outcomes))
    }

    /// No probe yet.
    pub fn new() -> (p: ScanProgress)
        ensures
            p.holds(Seq::empty()),
            p.total_scanned == 0,
            p.success_count == 0,
            p.found() == Samples::empty(),
    {
        let p: ScanProgress = ScanProgress {
            success_count: 0,
            total_scanned: 0,
            batch: Vec::new(),
            results: ScanResults::new(),
        };
        assert(p.batch@ =~= Seq::empty());
        p
    }

    /// Counts a probe and keeps what it found. A full batch is handed on.
    pub fn record(&mut self, subnet: IpNet, quality: Option<IpQuality>)
        requires
            old(self).wf(),
            old(self).total_scanned < usize::MAX,
        ensures
            final(self).wf(),
            final(self).total_scanned == old(self).total_scanned + 1,
            final(self).success_count == old(self).success_count + if quality is Some {
                1int
            } else {
                0int
            },
            final(self).found() == match quality {
                Some(found) => with_sample(old(self).found(), subnet, found),
                None => old(self).found(),
            },
            forall|outcomes: Seq<(IpNet, Option<IpQuality>)>| #[trigger]
                old(self).holds(outcomes) ==> final(self).holds(
                    outcomes.push((subnet, quality)),
                ),
    {
        let ghost earlier: ScanProgress = *self;
        let ghost outcome: (IpNet, Option<IpQuality>) = (subnet, quality);
        self.total_scanned = self.total_scanned + 1;
        if let Some(found) = quality {
            self.success_count = self.success_count + 1;
            let ghost waiting: Seq<(IpNet, IpQuality)> = self.batch@;
            self.batch.push((subnet, found));
            assert(self.batch@.drop_last() =~= waiting);
            if self.batch.len() >= BATCH_SIZE {
                flush_batch(&mut self.batch, &mut self.results);
                assert(self.found() == self.results@);
            }
        }
        proof {
            assert forall|outcomes: Seq<(IpNet, Option<IpQuality>)>| #[trigger]
                earlier.holds(outcomes) implies self.holds(outcomes.push(outcome)) by {
                assert(outcomes.push(outcome).drop_last() =~= outcomes);
                if let Some(found) = outcome.1 {
                    let all = successes(outcomes).push((outcome.0, found));
                    assert(all.drop_last() =~= successes(outcomes));
                }
            }
        }
    }

    /// Ends the scan: hands on what is left, and gives the number of probes
    /// that succeeded and the number of probes.
    pub fn finish(self) -> (r: (usize, usize, ScanResults))
        requires
            self.wf(),
        ensures
            r.0 == self.success_count,
            r.1 == self.total_scanned,
            r.2.wf(),
            r.2@ == self.found(),
    {
        let ScanProgress { success_count, total_scanned, batch, results } = self;
        let mut batch: Vec<(IpNet, IpQuality)> = batch;
        let mut results: ScanResults = results;
        flush_batch(&mut batch, &mut results);
        (success_count, total_scanned, results)
    }
}

/// The samples of one network.
pub type Group = (IpNet, Vec<IpQuality>);

/// The mean score and the mean loss of some samples.
pub type Means = (Single, Single);

/// Whether the latencies and jitters of every network can be added up.
pub open spec fn sums_fit(groups: Seq<Group>) -> bool {
    forall|g: int|
        0 <= g < groups.len() ==> latency_sum((#[trigger] groups[g]).1@) <= u64::MAX && jitter_sum(
            groups[g].1@,
        ) <= u64::MAX
}

/// Whether a record sums up the samples of a network.
pub open spec fn sums_up(record: SubnetQuality, group: Group, means: Means, now: i128) -> bool {
    let samples = group.1@;
    &&& record.subnet == group.0
    &&& record.score == means.0
    &&& record.avg_latency == latency_sum(samples) / (samples.len() as int)
    &&& record.avg_jitter == jitter_sum(samples) / (samples.len() as int)
    &&& record.avg_loss_rate == means.1
    &&& record.sample_count == samples.len()
    &&& is_primary_colo(samples, record.colo@)
    &&& record.last_updated == now
}

/// The networks with a sample, each with its means.
pub open spec fn sampled(groups: Seq<Group>, means: Seq<Means>) -> Seq<(Group, Means)>
    decreases groups.len(),
{
    if groups.len() == 0 {
        Seq::empty()
    } else {
        let before = sampled(groups.drop_last(), means.drop_last());
        if groups.last().1@.len() == 0 {
            before
        } else {
            before.push((groups.last(), means.last()))
        }
    }
}

/// Whether records sum up the networks with a sample, in order.
pub open spec fn is_summary(
    records: Seq<SubnetQuality>,
    groups: Seq<Group>,
    means: Seq<Means>,
    now: i128,
) -> bool {
    &&& records.len() == sampled(groups, means).len()
    &&& forall|i: int|
        0 <= i < records.len() ==> sums_up(
            #[trigger] records[i],
            sampled(groups, means)[i].0,
            sampled(groups, means)[i].1,
            now,
        )
}

/// The networks with a sample are well formed where all are.
proof fn lemma_sampled_wf(groups: Seq<Group>, means: Seq<Means>)
    requires
        groups.len() == means.len(),
        forall|g: int| 0 <= g < groups.len() ==> (#[trigger] groups[g]).0.wf(),
    ensures
        forall|i: int|
            0 <= i < sampled(groups, means).len() ==> (#[trigger] sampled(
                groups,
                means,
            )[i]).0.0.wf(),
    decreases groups.len(),
{
    if groups.len() > 0 {
        let init = groups.drop_last();
        assert forall|g: int| 0 <= g < init.len() implies (#[trigger] init[g]).0.wf() by {
            assert(groups[g].0.wf());
        }
        lemma_sampled_wf(init, means.drop_last());
        assert(groups[groups.len() - 1].0.wf());
        let earlier = sampled(init, means.drop_last());
        assert forall|i: int| 0 <= i < sampled(groups, means).len() implies (
        #[trigger] sampled(groups, means)[i]).0.0.wf() by {
            if i < earlier.len() {
                assert(earlier[i].0.0.wf());
            }
        }
    }
}

/// Sums up the samples of every network that has one. `means` gives the mean
/// score and the mean loss of each network.
pub fn summarize(groups: &Vec<Group>, means: &Vec<Means>, now: i128) -> (records: Vec<
    SubnetQuality,
>)
    requires
        sums_fit(groups@),
        groups@.len() == means@.len(),
    ensures
        is_summary(records@, groups@, means@, now),
{
    let mut records: Vec<SubnetQuality> = Vec::new();
    let mut i: usize = 0;
    while i < groups.len()
        invariant
            i <= groups@.len() == means@.len(),
            sums_fit(groups@),
            is_summary(records@, groups@.take(i as int), means@.take(i as int), now),
        decreases groups@.len() - i,
    {
        assert(groups@.take(i + 1).drop_last() =~= groups@.take(i as int));
        assert(means@.take(i + 1).drop_last() =~= means@.take(i as int));
        assert(groups@.take(i + 1).last() == groups@[i as int]);
        assert(means@.take(i + 1).last() == means@[i as int]);
        if groups[i].1.len() > 0 {
            records.push(
                SubnetQuality::new(
                    groups[i].0,
                    groups[i].1.as_slice(),
                    means[i].0,
                    means[i].1,
                    now,
                ),
            );
        }
        i = i + 1;
    }
    assert(groups@.take(i as int) =~= groups@);
    assert(means@.take(i as int) =~= means@);
    records
}

/// What became of the results of a scan.
#[derive(Clone, Copy, Debug, PartialEq, Eq, Structural)]
pub struct Persisted {
    /// Networks that were scanned.
    pub updated: usize,
    /// Networks dropped for being too old.
    pub expired: usize,
    /// Networks dropped for being too many.
    pub evicted: usize,
}

/// Whether what is known after some records came in is all that was known and
/// came in, but for what was too old and what was too much.
pub open spec fn is_persisted(
    before: Map<NetKey, SubnetQuality>,
    records: Seq<SubnetQuality>,
    after: Map<NetKey, SubnetQuality>,
    counts: Persisted,
    limits: (i128, u64, usize),
) -> bool {
    let known = with_records(before, records);
    let young = unexpired(known, limits.0 as int, limits.1);
    &&& is_eviction(young, after, limits.2 as int)
    &&& counts.expired == known.len() - young.len()
    &&& counts.evicted == young.len() - after.len()
}

/// Keeps what a scan found: records the networks, drops those that are too old
/// or too many, and determines the best anew. `means` gives the mean score and
/// the mean loss of each network, and `top_k` how many of a number of networks
/// count as best.
pub fn aggregate_and_persist(
    manager: &mut IpManager,
    groups: &Vec<Group>,
    means: &Vec<Means>,
    now: i128,
    ttl_secs: u64,
    max_subnets: usize,
    top_k: impl Fn(usize) -> usize,
) -> (counts: Persisted)
    requires
        old(manager).wf(),
        sums_fit(groups@),
        groups@.len() == means@.len(),
        forall|g: int| 0 <= g < groups@.len() ==> (#[trigger] groups@[g]).0.wf(),
        cutoff_in_range(now as int, ttl_secs),
        forall|n: usize| call_requires(top_k, (n,)),
    ensures
        final(manager).wf(),
        counts.updated == groups@.len(),
        exists|records: Seq<SubnetQuality>| #[trigger]
            is_summary(records, groups@, means@, now) && is_persisted(
                old(manager).contents(),
                records,
                final(manager).contents(),
                counts,
                (now, ttl_secs, max_subnets),
            ),
        exists|total: usize, k: usize|
            total == final(manager).contents().len() && #[trigger] call_ensures(
                top_k,
                (total,),
                k,
            ) && are_best(
                final(manager).best(),
                final(manager).contents(),
                best_count(total as int, k as int),
            ),
{
    let records: Vec<SubnetQuality> = summarize(groups, means, now);
    proof {
        lemma_sampled_wf(groups@, means@);
        assert forall|i: int| 0 <= i < records@.len() implies (
        #[trigger] records@[i]).subnet.wf() by {
            assert(sampled(groups@, means@)[i].0.0.wf());
        }
    }
    manager.update_subnets(&records);
    let removed: (usize, usize) = manager.cleanup_subnets(now, ttl_secs, max_subnets);
    let total: usize = manager.subnet_count();
    let k: usize = top_k(total);
    manager.recalculate_best_subnets(k);
    assert(call_ensures(top_k, (total,), k));
    assert(is_summary(records@, groups@, means@, now));
    Persisted { updated: groups.len(), expired: removed.0, evicted: removed.1 }
}

/// An endpoint has the host of the address, or none, and its port, or eighty.
pub proof fn endpoints_have_default_port(host: Option<Seq<char>>, port: Option<u16>)
    ensures
        host is Some ==> endpoint_of((host, port)).0 == host->0,
        host is None ==> endpoint_of((host, port)).0.len() == 0,
        port is Some ==> endpoint_of((host, port)).1 == port->0,
        port is None ==> endpoint_of((host, port)).1 == 80,
{
}

/// The successes are the outcomes that found something, each with its network,
/// in order.
pub proof fn successes_are_found_outcomes(
    a: Seq<(IpNet, Option<IpQuality>)>,
    b: Seq<(IpNet, Option<IpQuality>)>,
    net: IpNet,
    quality: IpQuality,
)
    ensures
        successes(a + b) == successes(a) + successes(b),
        successes(seq![(net, Some(quality))]) == seq![(net, quality)],
        successes(seq![(net, None)]) == Seq::<(IpNet, IpQuality)>::empty(),
    decreases b.len(),
{
    let one: Seq<(IpNet, Option<IpQuality>)> = seq![(net, Some(quality))];
    let none: Seq<(IpNet, Option<IpQuality>)> = seq![(net, None)];
    assert(one.drop_last() =~= Seq::empty());
    assert(none.drop_last() =~= Seq::empty());
    assert(successes(one.drop_last()) =~= Seq::<(IpNet, IpQuality)>::empty());
    assert(successes(none.drop_last()) =~= Seq::<(IpNet, IpQuality)>::empty());
    assert(successes(one) =~= seq![(net, quality)]);
    if b.len() == 0 {
        assert(a + b =~= a);
        assert(successes(a + b) =~= successes(a) + successes(b));
    } else {
        successes_are_found_outcomes(a, b.drop_last(), net, quality);
        assert((a + b).drop_last() =~= a + b.drop_last());
        assert((a + b).last() == b.last());
        assert(successes(a + b) =~= successes(a) + successes(b));
    }
}

/// Whether `places` are those of the groups with a sample, in ascending order.
pub open spec fn are_sampled_places(places: Seq<int>, groups: Seq<Group>) -> bool {
    &&& forall|i: int|
        0 <= i < places.len() ==> 0 <= #[trigger] places[i] < groups.len()
            && groups[places[i]].1@.len() > 0
    &&& forall|i: int, j: int|
        0 <= i < j < places.len() ==> #[trigger] places[i] < #[trigger] places[j]
    &&& forall|p: int|
        0 <= p < groups.len() && (#[trigger] groups[p]).1@.len() > 0 ==> places.contains(p)
}

/// A summary has a record of each group with a sample, in order. The record
/// names the network of the group and how many samples it has; its latency and
/// its jitter, as often as there are samples, are the sums but for less than
/// one of each; the score, the loss and the time are those given.
pub proof fn summary_has_each_sampled_group(
    records: Seq<SubnetQuality>,
    groups: Seq<Group>,
    means: Seq<Means>,
    now: i128,
)
    requires
        is_summary(records, groups, means, now),
        groups.len() == means.len(),
    ensures
        exists|places: Seq<int>| #[trigger]
            are_sampled_places(places, groups) && places.len() == records.len() && forall|i: int|
                0 <= i < records.len() ==> {
                    let r = #[trigger] records[i];
                    let group = groups[places[i]];
                    let n = group.1@.len() as int;
                    &&& r.subnet == group.0
                    &&& r.sample_count == n
                    &&& r.avg_latency * n <= latency_sum(group.1@) < (r.avg_latency + 1) * n
                    &&& r.avg_jitter * n <= jitter_sum(group.1@) < (r.avg_jitter + 1) * n
                    &&& r.score == means[places[i]].0
                    &&& r.avg_loss_rate == means[places[i]].1
                    &&& is_primary_colo(group.1@, r.colo@)
                    &&& r.last_updated == now
                },
{
    lemma_sampled_places(groups, means);
    let places = choose|places: Seq<int>| #[trigger]
        are_sampled_places(places, groups) && sampled(groups, means) == places.map_values(
            |p: int| (groups[p], means[p]),
        );
    assert forall|i: int| 0 <= i < records.len() implies {
        let r = #[trigger] records[i];
        let group = groups[places[i]];
        let n = group.1@.len() as int;
        &&& r.subnet == group.0
        &&& r.sample_count == n
        &&& r.avg_latency * n <= latency_sum(group.1@) < (r.avg_latency + 1) * n
        &&& r.avg_jitter * n <= jitter_sum(group.1@) < (r.avg_jitter + 1) * n
        &&& r.score == means[places[i]].0
        &&& r.avg_loss_rate == means[places[i]].1
        &&& is_primary_colo(group.1@, r.colo@)
        &&& r.last_updated == now
    } by {
        let r = records[i];
        let group = groups[places[i]];
        assert(sampled(groups, means)[i] == (group, means[places[i]]));
        assert(sums_up(r, group, means[places[i]], now));
        let n: int = group.1@.len() as int;
        lemma_whole_part(latency_sum(group.1@), n);
        lemma_whole_part(jitter_sum(group.1@), n);
    }
}

/// The whole part of a quotient.
proof fn lemma_whole_part(sum: int, n: int)
    requires
        n > 0,
    ensures
        (sum / n) * n <= sum < (sum / n + 1) * n,
{
    assert((sum / n) * n <= sum < (sum / n + 1) * n) by (nonlinear_arith)
        requires
            n > 0,
    ;
}

/// Where the groups with a sample stand.
proof fn lemma_sampled_places(groups: Seq<Group>, means: Seq<Means>)
    requires
        groups.len() == means.len(),
    ensures
        exists|places: Seq<int>| #[trigger]
            are_sampled_places(places, groups) && sampled(groups, means) == places.map_values(
                |p: int| (groups[p], means[p]),
            ),
    decreases groups.len(),
{
    if groups.len() == 0 {
        let places: Seq<int> = Seq::empty();
        assert(are_sampled_places(places, groups));
        assert(sampled(groups, means) =~= places.map_values(|p: int| (groups[p], means[p])));
    } else {
        let before: Seq<Group> = groups.drop_last();
        lemma_sampled_places(before, means.drop_last());
        let earlier = choose|places: Seq<int>| #[trigger]
            are_sampled_places(places, before) && sampled(before, means.drop_last())
                == places.map_values(|p: int| (before[p], means.drop_last()[p]));
        let last: int = groups.len() - 1;
        let places: Seq<int> = if groups.last().1@.len() > 0 {
            earlier.push(last)
        } else {
            earlier
        };
        assert forall|p: int| 0 <= p < groups.len() && (#[trigger] groups[p]).1@.len() > 0 implies
            places.contains(p) by {
            if p < last {
                assert(before[p] == groups[p]);
                let i = choose|i: int| 0 <= i < earlier.len() && earlier[i] == p;
                assert(places[i] == p);
            } else {
                assert(places[places.len() - 1] == p);
            }
        }
        assert(are_sampled_places(places, groups));
        assert(sampled(groups, means) =~= places.map_values(|p: int| (groups[p], means[p])));
    }
}

/// What is known after a scan is no more than the limit, and each record of it
/// is at most as old as allowed and is one of the scan or was known before. The
/// counts tell how many records went, and more go for being too many only
/// where there are too many.
pub proof fn persisting_keeps_young_and_few(
    before: Map<NetKey, SubnetQuality>,
    records: Seq<SubnetQuality>,
    after: Map<NetKey, SubnetQuality>,
    counts: Persisted,
    limits: (i128, u64, usize),
    key: NetKey,
)
    requires
        is_persisted(before, records, after, counts, limits),
        after.contains_key(key),
        limits.1 <= i64::MAX,
    ensures
        after.len() <= limits.2,
        counts.expired + counts.evicted == with_records(before, records).len() - after.len(),
        counts.evicted > 0 ==> after.len() == limits.2,
        limits.1 == 0 ==> counts.expired == 0,
        limits.1 > 0 ==> limits.0 - after[key].last_updated <= limits.1 * 1_000_000_000,
        (before.contains_key(key) && after[key] == before[key]) || exists|i: int|
            0 <= i < records.len() && #[trigger] records[i] == after[key],
{
    let known = with_records(before, records);
    let young = unexpired(known, limits.0 as int, limits.1);
    assert(is_eviction(young, after, limits.2 as int));
    assert(after.submap_of(young));
    assert(young.contains_key(key));
    assert(young[key] == after[key]);
    assert(known.contains_key(key) && known[key] == after[key]);
    lemma_known_or_recorded(before, records, key);
}

/// What is known after records came in is one of them or was known before.
proof fn lemma_known_or_recorded(
    before: Map<NetKey, SubnetQuality>,
    records: Seq<SubnetQuality>,
    key: NetKey,
)
    requires
        with_records(before, records).contains_key(key),
    ensures
        (before.contains_key(key) && with_records(before, records)[key] == before[key])
            || exists|i: int|
            0 <= i < records.len() && #[trigger] records[i] == with_records(before, records)[key],
    decreases records.len(),
{
    if records.len() > 0 {
        if net_key(records.last().subnet) == key {
            assert(records[records.len() - 1] == with_records(before, records)[key]);
        } else {
            let shorter: Seq<SubnetQuality> = records.drop_last();
            lemma_known_or_recorded(before, shorter, key);
            if exists|i: int|
                0 <= i < shorter.len() && #[trigger] shorter[i] == with_records(
                    before,
                    shorter,
                )[key] {
                let i = choose|i: int|
                    0 <= i < shorter.len() && #[trigger] shorter[i] == with_records(
                        before,
                        shorter,
                    )[key];
                assert(records[i] == with_records(before, records)[key]);
            }
        }
    }
}

} // verus!
