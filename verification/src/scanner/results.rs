//! Collecting what probes find, by network.
use crate::model::IpQuality;
use crate::net::IpNet;
use std::collections::HashMap;
use vstd::prelude::*;

verus! {

/// Samples by network.
pub type Samples = Map<IpNet, Seq<IpQuality>>;

/// The samples of a network; none where the network does not occur.
pub open spec fn samples_of(map: Samples, net: IpNet) -> Seq<IpQuality> {
    if map.contains_key(net) {
        map[net]
    } else {
        Seq::empty()
    }
}

/// The samples after one more came in.
pub open spec fn with_sample(map: Samples, net: IpNet, sample: IpQuality) -> Samples {
    map.insert(net, samples_of(map, net).push(sample))
}

/// The samples after some more came in, one after another.
pub open spec fn with_samples(map: Samples, more: Seq<(IpNet, IpQuality)>) -> Samples
    decreases more.len(),
{
    if more.len() == 0 {
        map
    } else {
        with_sample(with_samples(map, more.drop_last()), more.last().0, more.last().1)
    }
}

/// Taking in two lists of samples one after the other is taking in both at
/// once.
pub proof fn with_samples_joins(
    map: Samples,
    first: Seq<(IpNet, IpQuality)>,
    second: Seq<(IpNet, IpQuality)>,
)
    ensures
        with_samples(with_samples(map, first), second) == with_samples(map, first + second),
    decreases second.len(),
{
    if second.len() == 0 {
        assert(first + second =~= first);
    } else {
        with_samples_joins(map, first, second.drop_last());
        assert((first + second).drop_last() =~= first + second.drop_last());
        assert((first + second).last() == second.last());
    }
}

/// Groups, as samples by network.
pub open spec fn grouped(groups: Seq<(IpNet, Vec<IpQuality>)>) -> Samples {
    Map::new(
        |net: IpNet| exists|g: int| 0 <= g < groups.len() && (#[trigger] groups[g]).0 == net,
        |net: IpNet|
            groups[choose|g: int| 0 <= g < groups.len() && (#[trigger] groups[g]).0 == net].1@,
    )
}

/// Whether no network has two groups.
pub open spec fn one_group_each(groups: Seq<(IpNet, Vec<IpQuality>)>) -> bool {
    forall|g: int, h: int|
        0 <= g < h < groups.len() ==> (#[trigger] groups[g]).0 != (#[trigger] groups[h]).0
}

/// The address of a network as a number.
spec fn bucket(net: IpNet) -> u128 {
    match net {
        IpNet::V4 { addr, .. } => addr as u128,
        IpNet::V6 { addr, .. } => addr,
    }
}

fn bucket_of(net: &IpNet) -> (b: u128)
    ensures
        b == bucket(*net),
{
    match net {
        IpNet::V4 { addr, .. } => *addr as u128,
        IpNet::V6 { addr, .. } => *addr,
    }
}

/// The samples of a scan, grouped by network.
pub struct ScanResults {
    groups: Vec<(IpNet, Vec<IpQuality>)>,
    /// The groups of the networks with a given address.
    index: HashMap<u128, Vec<usize>>,
}

impl View for ScanResults {
    type V = Samples;

    closed spec fn view(&self) -> Samples {
        grouped(self.groups@)
    }
}

impl ScanResults {
    /// Every network has one group, which holds a sample and which the index
    /// finds.
    pub closed spec fn wf(&self) -> bool {
        &&& one_group_each(self.groups@)
        &&& forall|g: int| 0 <= g < self.groups@.len() ==> (#[trigger] self.groups@[g]).1@.len() > 0
        &&& forall|g: int|
            0 <= g < self.groups@.len() ==> self.index@.contains_key(
                bucket((#[trigger] self.groups@[g]).0),
            ) && self.index@[bucket(self.groups@[g].0)]@.contains(g as usize)
        &&& forall|b: u128, i: int|
            self.index@.contains_key(b) && 0 <= i < self.index@[b]@.len()
                ==> #[trigger] self.index@[b]@[i] < self.groups@.len()
    }

    /// No sample.
    pub fn new() -> (r: ScanResults)
        ensures
            r.wf(),
            r@ == Samples::empty(),
    {
        broadcast use vstd::std_specs::hash::group_hash_axioms;

        let r: ScanResults = ScanResults { groups: Vec::new(), index: HashMap::new() };
        assert(r@ =~= Samples::empty());
        r
    }

    /// The groups, each network once.
    pub fn groups(&self) -> (groups: &Vec<(IpNet, Vec<IpQuality>)>)
        requires
            self.wf(),
        ensures
            one_group_each(groups@),
            forall|g: int| 0 <= g < groups@.len() ==> (#[trigger] groups@[g]).1@.len() > 0,
            self@ == grouped(groups@),
    {
        &self.groups
    }

    /// The group of a network.
    fn find(&self, net: &IpNet) -> (r: Option<usize>)
        requires
            self.wf(),
        ensures
            match r {
                Some(g) => g < self.groups@.len() && self.groups@[g as int].0 == *net,
                None => forall|g: int|
                    0 <= g < self.groups@.len() ==> (#[trigger] self.groups@[g]).0 != *net,
            },
    {
        broadcast use vstd::std_specs::hash::group_hash_axioms;

        match self.index.get(&bucket_of(net)) {
            Some(places) => {
                assert(self.index@.contains_key(bucket(*net)));
                assert(self.index@[bucket(*net)] == *places);
                let mut i: usize = 0;
                while i < places.len()
                    invariant
                        i <= places@.len(),
                        forall|j: int|
                            0 <= j < places@.len() ==> #[trigger] places@[j] < self.groups@.len(),
                        forall|j: int|
                            0 <= j < i ==> self.groups@[#[trigger] places@[j] as int].0 != *net,
                    decreases places@.len() - i,
                {
                    if self.groups[places[i]].0 == *net {
                        return Some(places[i]);
                    }
                    i = i + 1;
                }
                assert forall|g: int| 0 <= g < self.groups@.len() implies (
                #[trigger] self.groups@[g]).0 != *net by {
                    if self.groups@[g].0 == *net {
                        assert(self.groups.len() == self.groups@.len());
                        assert(places@.contains(g as usize));
                        let j = choose|j: int| 0 <= j < places@.len() && places@[j] == g as usize;
                        assert(self.groups@[places@[j] as int].0 != *net);
                    }
                }
                None
            },
            None => None,
        }
    }

    /// Takes in a sample.
    pub fn insert(&mut self, net: IpNet, sample: IpQuality)
        requires
            old(self).wf(),
        ensures
            final(self).wf(),
            final(self)@ == with_sample(old(self)@, net, sample),
    {
        broadcast use vstd::std_specs::hash::group_hash_axioms;

        let ghost before: Seq<(IpNet, Vec<IpQuality>)> = self.groups@;
        match self.find(&net) {
            Some(g) => {
                self.groups[g].1.push(sample);
                proof {
                    assert(self.groups@.len() == before.len());
                    assert forall|h: int| 0 <= h < before.len() implies (
                    #[trigger] self.groups@[h]).0 == before[h].0 && self.groups@[h].1@ == if h
                        == g {
                        before[h].1@.push(sample)
                    } else {
                        before[h].1@
                    } by {}
                    assert forall|n: IpNet| #[trigger] self@.contains_key(n) <==> with_sample(
                        grouped(before),
                        net,
                        sample,
                    ).contains_key(n) by {
                        if self@.contains_key(n) {
                            let h = choose|h: int|
                                0 <= h < self.groups@.len() && (#[trigger] self.groups@[h]).0 == n;
                            assert(before[h].0 == n);
                        }
                        if grouped(before).contains_key(n) {
                            let h = choose|h: int|
                                0 <= h < before.len() && (#[trigger] before[h]).0 == n;
                            assert(self.groups@[h].0 == n);
                        }
                        if n == net {
                            assert(self.groups@[g as int].0 == n);
                        }
                    }
                    assert forall|n: IpNet| #[trigger] self@.contains_key(n) implies self@[n]
                        == with_sample(grouped(before), net, sample)[n] by {
                        let h = choose|h: int|
                            0 <= h < self.groups@.len() && (#[trigger] self.groups@[h]).0 == n;
                        assert(before[h].0 == n);
                        lemma_grouped_at(before, h);
                        lemma_grouped_at(self.groups@, h);
                        if n == net {
                            if h < g {
                                assert(before[h].0 != before[g as int].0);
                            } else if g < h {
                                assert(before[g as int].0 != before[h].0);
                            }
                        }
                    }
                    assert(self@ =~= with_sample(grouped(before), net, sample));
                    assert(self.wf());
                }
            },
            None => {
                let ghost old_index: Map<u128, Vec<usize>> = self.index@;
                let key: u128 = bucket_of(&net);
                let n: usize = self.groups.len();
                let mut places: Vec<usize> = match self.index.remove(&key) {
                    Some(places) => places,
                    None => Vec::new(),
                };
                let ghost old_places: Seq<usize> = places@;
                places.push(n);
                self.index.insert(key, places);
                let mut samples: Vec<IpQuality> = Vec::new();
                samples.push(sample);
                self.groups.push((net, samples));
                proof {
                    assert(self.index@ =~= old_index.insert(key, places));
                    assert forall|h: int|
                        0 <= h < self.groups@.len() implies self.index@.contains_key(
                        bucket((#[trigger] self.groups@[h]).0),
                    ) && self.index@[bucket(self.groups@[h].0)]@.contains(h as usize) by {
                        if h < n {
                            assert(self.groups@[h] == before[h]);
                            assert(old_index[bucket(before[h].0)]@.contains(h as usize));
                            if bucket(before[h].0) == key {
                                let j = choose|j: int|
                                    0 <= j < old_places.len() && old_places[j] == h as usize;
                                assert(places@[j] == h as usize);
                            }
                        } else {
                            assert(places@[old_places.len() as int] == n);
                        }
                    }
                    assert forall|b: u128, i: int|
                        self.index@.contains_key(b) && 0 <= i < self.index@[b]@.len() implies
                        #[trigger] self.index@[b]@[i] < self.groups@.len() by {
                        if b == key {
                            if i < old_places.len() {
                                assert(old_index.contains_key(key));
                                assert(old_index[key]@[i] < before.len());
                            }
                        } else {
                            assert(old_index[b]@[i] < before.len());
                        }
                    }
                    lemma_grouped_push(before, net, samples);
                    assert(samples@ =~= Seq::empty().push(sample));
                    assert(self@ =~= with_sample(grouped(before), net, sample));
                }
            },
        }
    }
}

proof fn lemma_grouped_at(groups: Seq<(IpNet, Vec<IpQuality>)>, g: int)
    requires
        one_group_each(groups),
        0 <= g < groups.len(),
    ensures
        grouped(groups).contains_key(groups[g].0),
        grouped(groups)[groups[g].0] == groups[g].1@,
{
    let net = groups[g].0;
    let h = choose|h: int| 0 <= h < groups.len() && (#[trigger] groups[h]).0 == net;
    if h < g {
        assert(groups[h].0 != groups[g].0);
    } else if g < h {
        assert(groups[g].0 != groups[h].0);
    }
}

proof fn lemma_grouped_push(
    groups: Seq<(IpNet, Vec<IpQuality>)>,
    net: IpNet,
    samples: Vec<IpQuality>,
)
    requires
        one_group_each(groups),
        forall|g: int| 0 <= g < groups.len() ==> (#[trigger] groups[g]).0 != net,
    ensures
        one_group_each(groups.push((net, samples))),
        grouped(groups.push((net, samples))) == grouped(groups).insert(net, samples@),
        !grouped(groups).contains_key(net),
{
    let after = groups.push((net, samples));
    assert forall|n: IpNet| #[trigger] grouped(after).contains_key(n) <==> grouped(groups).insert(
        net,
        samples@,
    ).contains_key(n) by {
        if grouped(after).contains_key(n) {
            let h = choose|h: int| 0 <= h < after.len() && (#[trigger] after[h]).0 == n;
            if h < groups.len() {
                assert(groups[h].0 == n);
            }
        }
        if grouped(groups).contains_key(n) {
            let h = choose|h: int| 0 <= h < groups.len() && (#[trigger] groups[h]).0 == n;
            assert(after[h].0 == n);
        }
        if n == net {
            assert(after[groups.len() as int].0 == n);
        }
    }
    assert forall|n: IpNet| #[trigger] grouped(after).contains_key(n) implies grouped(after)[n]
        == grouped(groups).insert(net, samples@)[n] by {
        let h = choose|h: int| 0 <= h < after.len() && (#[trigger] after[h]).0 == n;
        lemma_grouped_at(after, h);
        if h < groups.len() {
            lemma_grouped_at(groups, h);
        }
    }
    assert(grouped(after) =~= grouped(groups).insert(net, samples@));
}

/// A sample goes to the end of those of its network, and other networks keep
/// what they have.
pub proof fn samples_go_to_their_network(
    map: Samples,
    net: IpNet,
    sample: IpQuality,
    other: IpNet,
)
    ensures
        with_sample(map, net, sample).contains_key(net),
        map.contains_key(net) ==> with_sample(map, net, sample)[net] == map[net].push(sample),
        !map.contains_key(net) ==> with_sample(map, net, sample)[net] == seq![sample],
        other != net ==> (with_sample(map, net, sample).contains_key(other) <==> map.contains_key(
            other,
        )),
        other != net && map.contains_key(other) ==> with_sample(map, net, sample)[other]
            == map[other],
{
    assert(Seq::<IpQuality>::empty().push(sample) =~= seq![sample]);
}

/// Samples come in one after another: one that comes in last is added to what
/// the others left.
pub proof fn samples_come_in_order(
    map: Samples,
    more: Seq<(IpNet, IpQuality)>,
    net: IpNet,
    q: IpQuality,
)
    ensures
        with_samples(map, more.push((net, q))) == with_sample(with_samples(map, more), net, q),
        with_samples(map, Seq::empty()) == map,
{
    assert(more.push((net, q)).drop_last() =~= more);
}

} // verus!
