//! What is known of an address and of a network.
use crate::float_bits::Single;
use crate::net::{IpAddr, IpNet};
use crate::text::{chars_of, same_text};
use vstd::prelude::*;

verus! {

/// What a scan found out about one address.
#[derive(Debug)]
pub struct IpQuality {
    pub ip: IpAddr,
    /// Mean latency in milliseconds.
    pub latency: u64,
    /// Mean change between consecutive latencies, in milliseconds.
    pub jitter: u64,
    /// The part of the probes that failed.
    pub loss_rate: Single,
    pub score: Single,
    /// The data centre that answered.
    pub colo: String,
    /// Nanoseconds since the Unix epoch.
    pub last_updated: i128,
}

/// What a scan found out about one network.
#[derive(Debug)]
pub struct SubnetQuality {
    pub subnet: IpNet,
    pub score: Single,
    pub avg_latency: u64,
    pub avg_jitter: u64,
    pub avg_loss_rate: Single,
    pub sample_count: usize,
    pub colo: String,
    /// Nanoseconds since the Unix epoch.
    pub last_updated: i128,
}

impl Clone for IpQuality {
    fn clone(&self) -> (r: Self)
        ensures
            r == *self,
    {
        IpQuality {
            ip: self.ip,
            latency: self.latency,
            jitter: self.jitter,
            loss_rate: self.loss_rate,
            score: self.score,
            colo: self.colo.clone(),
            last_updated: self.last_updated,
        }
    }
}

impl Clone for SubnetQuality {
    fn clone(&self) -> (r: Self)
        ensures
            r == *self,
    {
        SubnetQuality {
            subnet: self.subnet,
            score: self.score,
            avg_latency: self.avg_latency,
            avg_jitter: self.avg_jitter,
            avg_loss_rate: self.avg_loss_rate,
            sample_count: self.sample_count,
            colo: self.colo.clone(),
            last_updated: self.last_updated,
        }
    }
}

impl IpQuality {
    /// Records what a scan found out about an address. Latency and jitter keep
    /// their low 64 bits.
    pub fn new(
        ip: IpAddr,
        latency: u128,
        jitter: u128,
        loss_rate: Single,
        colo: String,
        score: Single,
        now: i128,
    ) -> (q: IpQuality)
        ensures
            q.ip == ip,
            q.latency == latency % 0x1_0000_0000_0000_0000,
            q.jitter == jitter % 0x1_0000_0000_0000_0000,
            q.loss_rate == loss_rate,
            q.colo == colo,
            q.score == score,
            q.last_updated == now,
    {
        IpQuality {
            ip,
            latency: (latency % 0x1_0000_0000_0000_0000) as u64,
            jitter: (jitter % 0x1_0000_0000_0000_0000) as u64,
            loss_rate,
            score,
            colo,
            last_updated: now,
        }
    }
}

/// The sum of the latencies.
pub open spec fn latency_sum(samples: Seq<IpQuality>) -> int
    decreases samples.len(),
{
    if samples.len() == 0 {
        0
    } else {
        latency_sum(samples.drop_last()) + samples.last().latency
    }
}

/// The sum of the jitters.
pub open spec fn jitter_sum(samples: Seq<IpQuality>) -> int
    decreases samples.len(),
{
    if samples.len() == 0 {
        0
    } else {
        jitter_sum(samples.drop_last()) + samples.last().jitter
    }
}

/// How often a data centre occurs.
pub open spec fn colo_count(samples: Seq<IpQuality>, colo: Seq<char>) -> nat
    decreases samples.len(),
{
    if samples.len() == 0 {
        0
    } else {
        colo_count(samples.drop_last(), colo) + if samples.last().colo@ == colo {
            1nat
        } else {
            0nat
        }
    }
}

/// Whether a data centre occurs, and none occurs more often.
pub open spec fn is_primary_colo(samples: Seq<IpQuality>, colo: Seq<char>) -> bool {
    &&& colo_count(samples, colo) >= 1
    &&& forall|other: Seq<char>| #[trigger]
        colo_count(samples, other) <= colo_count(samples, colo)
}

proof fn lemma_sums_grow(samples: Seq<IpQuality>, n: int)
    requires
        0 <= n <= samples.len(),
    ensures
        0 <= latency_sum(samples.take(n)) <= latency_sum(samples),
        0 <= jitter_sum(samples.take(n)) <= jitter_sum(samples),
    decreases samples.len(),
{
    if n == samples.len() {
        assert(samples.take(n) =~= samples);
        if n > 0 {
            lemma_sums_grow(samples.drop_last(), n - 1);
            assert(samples.drop_last().take(n - 1) =~= samples.drop_last());
        }
    } else {
        lemma_sums_grow(samples.drop_last(), n);
        assert(samples.drop_last().take(n) =~= samples.take(n));
    }
}

proof fn lemma_colo_count_positive(samples: Seq<IpQuality>, i: int)
    requires
        0 <= i < samples.len(),
    ensures
        colo_count(samples, samples[i].colo@) >= 1,
    decreases samples.len(),
{
    if i < samples.len() - 1 {
        assert(samples.drop_last()[i] == samples[i]);
        lemma_colo_count_positive(samples.drop_last(), i);
    }
}

proof fn lemma_colo_count_occurs(samples: Seq<IpQuality>, colo: Seq<char>)
    requires
        colo_count(samples, colo) >= 1,
    ensures
        exists|i: int| 0 <= i < samples.len() && (#[trigger] samples[i]).colo@ == colo,
    decreases samples.len(),
{
    if samples.last().colo@ == colo {
        assert(samples[samples.len() - 1].colo@ == colo);
    } else {
        lemma_colo_count_occurs(samples.drop_last(), colo);
        let i = choose|i: int|
            0 <= i < samples.len() - 1 && (#[trigger] samples.drop_last()[i]).colo@ == colo;
        assert(samples[i].colo@ == colo);
    }
}

/// Counts the samples with a data centre.
fn count_colo(samples: &[IpQuality], colo: &Vec<char>) -> (n: usize)
    ensures
        n == colo_count(samples@, colo@),
{
    let mut n: usize = 0;
    let mut i: usize = 0;
    while i < samples.len()
        invariant
            i <= samples@.len(),
            n <= i,
            n == colo_count(samples@.take(i as int), colo@),
        decreases samples@.len() - i,
    {
        assert(samples@.take(i + 1).drop_last() =~= samples@.take(i as int));
        assert(samples@.take(i + 1).last() == samples@[i as int]);
        if same_text(&chars_of(samples[i].colo.as_str()), colo) {
            n = n + 1;
        }
        i = i + 1;
    }
    assert(samples@.take(i as int) =~= samples@);
    n
}

/// The data centre that occurs most often, or `"UNKNOWN"` where there is no
/// sample. Between data centres that occur equally often any may be given.
pub fn determine_primary_colo(samples: &[IpQuality]) -> (colo: String)
    ensures
        samples@.len() == 0 ==> colo@ == "UNKNOWN"@,
        samples@.len() > 0 ==> is_primary_colo(samples@, colo@),
{
    if samples.len() == 0 {
        return "UNKNOWN".to_string();
    }
    let mut best: usize = 0;
    let mut best_count: usize = count_colo(samples, &chars_of(samples[0].colo.as_str()));
    let mut i: usize = 1;
    while i < samples.len()
        invariant
            1 <= i <= samples@.len(),
            best < samples@.len(),
            best_count == colo_count(samples@, samples@[best as int].colo@),
            forall|j: int|
                0 <= j < i ==> colo_count(samples@, (#[trigger] samples@[j]).colo@) <= best_count,
        decreases samples@.len() - i,
    {
        let count: usize = count_colo(samples, &chars_of(samples[i].colo.as_str()));
        if count > best_count {
            best = i;
            best_count = count;
        }
        i = i + 1;
    }
    proof {
        lemma_colo_count_positive(samples@, best as int);
        assert forall|other: Seq<char>| #[trigger] colo_count(samples@, other) <= best_count by {
            if colo_count(samples@, other) >= 1 {
                lemma_colo_count_occurs(samples@, other);
                let j = choose|j: int|
                    0 <= j < samples@.len() && (#[trigger] samples@[j]).colo@ == other;
                assert(colo_count(samples@, samples@[j].colo@) <= best_count);
            }
        }
    }
    samples[best].colo.clone()
}

impl SubnetQuality {
    /// What is recorded of a network with no sample.
    pub open spec fn is_empty_record(self, subnet: IpNet, now: i128) -> bool {
        &&& self.subnet == subnet
        &&& self.score == (Single { bits: 0 })
        &&& self.avg_latency == 0
        &&& self.avg_jitter == 0
        &&& self.avg_loss_rate == (Single { bits: 0 })
        &&& self.sample_count == 0
        &&& self.colo@ == "UNKNOWN"@
        &&& self.last_updated == now
    }

    /// Sums up the samples of a network: the whole parts of the mean latency
    /// and the mean jitter, and the prevailing data centre. The means of score
    /// and loss are handed in.
    pub fn new(
        subnet: IpNet,
        samples: &[IpQuality],
        avg_score: Single,
        avg_loss_rate: Single,
        now: i128,
    ) -> (q: SubnetQuality)
        requires
            latency_sum(samples@) <= u64::MAX,
            jitter_sum(samples@) <= u64::MAX,
        ensures
            samples@.len() == 0 ==> q.is_empty_record(subnet, now),
            samples@.len() > 0 ==> {
                &&& q.subnet == subnet
                &&& q.score == avg_score
                &&& q.avg_latency == latency_sum(samples@) / (samples@.len() as int)
                &&& q.avg_jitter == jitter_sum(samples@) / (samples@.len() as int)
                &&& q.avg_loss_rate == avg_loss_rate
                &&& q.sample_count == samples@.len()
                &&& is_primary_colo(samples@, q.colo@)
                &&& q.last_updated == now
            },
    {
        if samples.len() == 0 {
            return SubnetQuality::empty(subnet, now);
        }
        let mut sum_latency: u64 = 0;
        let mut sum_jitter: u64 = 0;
        let mut i: usize = 0;
        while i < samples.len()
            invariant
                i <= samples@.len(),
                latency_sum(samples@) <= u64::MAX,
                jitter_sum(samples@) <= u64::MAX,
                sum_latency == latency_sum(samples@.take(i as int)),
                sum_jitter == jitter_sum(samples@.take(i as int)),
            decreases samples@.len() - i,
        {
            assert(samples@.take(i + 1).drop_last() =~= samples@.take(i as int));
            assert(samples@.take(i + 1).last() == samples@[i as int]);
            proof {
                lemma_sums_grow(samples@, i + 1);
            }
            sum_latency = sum_latency + samples[i].latency;
            sum_jitter = sum_jitter + samples[i].jitter;
            i = i + 1;
        }
        assert(samples@.take(i as int) =~= samples@);
        SubnetQuality {
            subnet,
            score: avg_score,
            avg_latency: sum_latency / samples.len() as u64,
            avg_jitter: sum_jitter / samples.len() as u64,
            avg_loss_rate,
            sample_count: samples.len(),
            colo: determine_primary_colo(samples),
            last_updated: now,
        }
    }

    /// The record of a network with no sample.
    pub fn empty(subnet: IpNet, now: i128) -> (q: SubnetQuality)
        ensures
            q.is_empty_record(subnet, now),
    {
        SubnetQuality {
            subnet,
            score: Single { bits: 0 },
            avg_latency: 0,
            avg_jitter: 0,
            avg_loss_rate: Single { bits: 0 },
            sample_count: 0,
            colo: "UNKNOWN".to_string(),
            last_updated: now,
        }
    }
}

/// The sums over samples are those over the parts that the samples fall into,
/// and over one sample they are its own values.
pub proof fn sums_add_up(a: Seq<IpQuality>, b: Seq<IpQuality>, q: IpQuality, colo: Seq<char>)
    ensures
        latency_sum(a + b) == latency_sum(a) + latency_sum(b),
        jitter_sum(a + b) == jitter_sum(a) + jitter_sum(b),
        colo_count(a + b, colo) == colo_count(a, colo) + colo_count(b, colo),
        latency_sum(seq![q]) == q.latency,
        jitter_sum(seq![q]) == q.jitter,
        q.colo@ == colo ==> colo_count(seq![q], colo) == 1,
        q.colo@ != colo ==> colo_count(seq![q], colo) == 0,
    decreases b.len(),
{
    reveal_with_fuel(latency_sum, 2);
    reveal_with_fuel(jitter_sum, 2);
    reveal_with_fuel(colo_count, 2);
    assert(seq![q].drop_last() =~= Seq::<IpQuality>::empty());
    if b.len() == 0 {
        assert(a + b =~= a);
    } else {
        sums_add_up(a, b.drop_last(), q, colo);
        assert((a + b).drop_last() =~= a + b.drop_last());
        assert((a + b).last() == b.last());
    }
}

/// The primary data centre is that of a sample, and no other is that of more
/// samples.
pub proof fn primary_data_centre_is_most_frequent(
    samples: Seq<IpQuality>,
    colo: Seq<char>,
    other: Seq<char>,
)
    requires
        is_primary_colo(samples, colo),
    ensures
        exists|i: int| 0 <= i < samples.len() && (#[trigger] samples[i]).colo@ == colo,
        colo_count(samples, other) <= colo_count(samples, colo),
{
    lemma_colo_count_occurs(samples, colo);
}

} // verus!
