//! Spreading connections over remotes.
use crate::net::IpAddr;
use crate::random::{choose_one, thread_rng};
use crate::text::{lowercased, same_str, to_lowercase};
use vstd::prelude::*;

verus! {

/// How the remote of a connection is chosen.
#[derive(Clone, Copy, Debug, PartialEq, Eq, Structural)]
pub enum LoadBalanceAlgorithm {
    /// The remote with the fewest connections.
    LeastConnections,
    /// One remote after another.
    RoundRobin,
    /// Any remote.
    Random,
}

/// The algorithm with a name in lower case; the fewest connections where the
/// name is not known.
pub open spec fn algorithm_named(name: Seq<char>) -> LoadBalanceAlgorithm {
    if name == "round_robin"@ {
        LoadBalanceAlgorithm::RoundRobin
    } else if name == "random"@ {
        LoadBalanceAlgorithm::Random
    } else {
        LoadBalanceAlgorithm::LeastConnections
    }
}

impl LoadBalanceAlgorithm {
    /// The algorithm with a name in lower case.
    pub fn from_lowercase(name: &str) -> (a: LoadBalanceAlgorithm)
        ensures
            a == algorithm_named(name@),
    {
        if same_str(name, "round_robin") {
            return LoadBalanceAlgorithm::RoundRobin;
        }
        if same_str(name, "random") {
            proof {
                reveal_strlit("round_robin");
                reveal_strlit("random");
            }
            return LoadBalanceAlgorithm::Random;
        }
        LoadBalanceAlgorithm::LeastConnections
    }

    /// The algorithm with a name, in whatever case.
    pub fn from_str(s: &str) -> (a: LoadBalanceAlgorithm)
        ensures
            a == algorithm_named(lowercased(s@)),
    {
        LoadBalanceAlgorithm::from_lowercase(to_lowercase(s).as_str())
    }
}

/// Where an address has its entry; past the end where it has none.
pub open spec fn entry_of(counts: Seq<(IpAddr, usize)>, ip: IpAddr) -> int
    decreases counts.len(),
{
    if counts.len() == 0 || counts[0].0 == ip {
        0
    } else {
        1 + entry_of(counts.drop_first(), ip)
    }
}

/// The connections of an address; none where it has no entry.
pub open spec fn count_in(counts: Seq<(IpAddr, usize)>, ip: IpAddr) -> usize
    decreases counts.len(),
{
    if counts.len() == 0 {
        0
    } else if counts[0].0 == ip {
        counts[0].1
    } else {
        count_in(counts.drop_first(), ip)
    }
}

/// The connections of each address that has an entry.
pub open spec fn counts_in(counts: Seq<(IpAddr, usize)>) -> Map<IpAddr, usize> {
    Map::new(
        |ip: IpAddr| entry_of(counts, ip) < counts.len(),
        |ip: IpAddr| count_in(counts, ip),
    )
}

proof fn lemma_entry(counts: Seq<(IpAddr, usize)>, ip: IpAddr)
    ensures
        0 <= entry_of(counts, ip) <= counts.len(),
        entry_of(counts, ip) < counts.len() ==> counts[entry_of(counts, ip)].0 == ip && count_in(
            counts,
            ip,
        ) == counts[entry_of(counts, ip)].1,
        entry_of(counts, ip) == counts.len() ==> count_in(counts, ip) == 0 && forall|i: int|
            0 <= i < counts.len() ==> (#[trigger] counts[i]).0 != ip,
        forall|i: int| 0 <= i < entry_of(counts, ip) ==> (#[trigger] counts[i]).0 != ip,
    decreases counts.len(),
{
    if counts.len() > 0 && counts[0].0 != ip {
        let rest = counts.drop_first();
        lemma_entry(rest, ip);
        assert forall|i: int| 0 <= i < entry_of(counts, ip) implies (#[trigger] counts[i]).0
            != ip by {
            if i > 0 {
                assert(rest[i - 1].0 != ip);
            }
        }
    }
}

/// Whether the first entry of an address is at a given place.
proof fn lemma_entry_at(counts: Seq<(IpAddr, usize)>, ip: IpAddr, place: int)
    requires
        0 <= place < counts.len(),
        counts[place].0 == ip,
        forall|i: int| 0 <= i < place ==> (#[trigger] counts[i]).0 != ip,
    ensures
        entry_of(counts, ip) == place,
        count_in(counts, ip) == counts[place].1,
{
    lemma_entry(counts, ip);
    let e = entry_of(counts, ip);
    if e < place {
        assert(counts[e].0 != ip);
    }
}

/// Whether no address has two entries.
pub open spec fn one_entry_each(counts: Seq<(IpAddr, usize)>) -> bool {
    forall|i: int, j: int|
        0 <= i < j < counts.len() ==> (#[trigger] counts[i]).0 != (#[trigger] counts[j]).0
}

/// What the choice of remotes goes by.
#[derive(Debug)]
pub struct LoadBalancerState {
    /// The number of turns taken so far.
    round_robin_index: usize,
    /// The addresses that have an entry, with their connections.
    connection_counts: Vec<(IpAddr, usize)>,
}

impl LoadBalancerState {
    /// The number of turns taken so far.
    pub closed spec fn turn(self) -> usize {
        self.round_robin_index
    }

    /// The addresses that have an entry, with their connections.
    pub closed spec fn entries(self) -> Seq<(IpAddr, usize)> {
        self.connection_counts@
    }

    /// No address has two entries.
    pub open spec fn wf(self) -> bool {
        one_entry_each(self.entries())
    }

    /// The connections of each address that has an entry.
    pub open spec fn counts(self) -> Map<IpAddr, usize> {
        counts_in(self.entries())
    }

    /// The connections of an address; none where it has no entry.
    pub open spec fn count(self, ip: IpAddr) -> usize {
        count_in(self.entries(), ip)
    }

    /// No connection yet.
    pub fn new() -> (s: LoadBalancerState)
        ensures
            s.wf(),
            s.turn() == 0,
            s.counts() == Map::<IpAddr, usize>::empty(),
            forall|ip: IpAddr| #[trigger] s.count(ip) == 0,
    {
        let s: LoadBalancerState = LoadBalancerState {
            round_robin_index: 0,
            connection_counts: Vec::new(),
        };
        assert(s.counts() =~= Map::<IpAddr, usize>::empty());
        s
    }

    /// Where an address has its entry.
    fn place(&self, ip: IpAddr) -> (p: usize)
        ensures
            p == entry_of(self.connection_counts@, ip),
            p <= self.connection_counts@.len(),
    {
        let ghost counts: Seq<(IpAddr, usize)> = self.connection_counts@;
        let mut p: usize = 0;
        while p < self.connection_counts.len() && self.connection_counts[p].0 != ip
            invariant
                p <= counts.len(),
                counts == self.connection_counts@,
                forall|i: int| 0 <= i < p ==> (#[trigger] counts[i]).0 != ip,
            decreases counts.len() - p,
        {
            p = p + 1;
        }
        proof {
            lemma_entry(counts, ip);
            if p < counts.len() {
                lemma_entry_at(counts, ip, p as int);
            } else {
                let e = entry_of(counts, ip);
                if e < counts.len() {
                    assert(counts[e].0 != ip);
                }
            }
        }
        p
    }

    /// Sets the connections of an address.
    fn set_count(&mut self, ip: IpAddr, count: usize)
        requires
            old(self).wf(),
        ensures
            final(self).wf(),
            final(self).turn() == old(self).turn(),
            final(self).counts() == old(self).counts().insert(ip, count),
            final(self).count(ip) == count,
            forall|other: IpAddr|
                other != ip ==> #[trigger] final(self).count(other) == old(self).count(other),
    {
        let ghost before: Seq<(IpAddr, usize)> = self.connection_counts@;
        let p: usize = self.place(ip);
        proof {
            lemma_entry(before, ip);
        }
        if p < self.connection_counts.len() {
            self.connection_counts[p].1 = count;
        } else {
            self.connection_counts.push((ip, count));
        }
        proof {
            let after = self.connection_counts@;
            assert forall|i: int, j: int| 0 <= i < j < after.len() implies (
            #[trigger] after[i]).0 != (#[trigger] after[j]).0 by {
                if j < before.len() {
                    assert(before[i].0 != before[j].0);
                } else {
                    assert(before[i].0 != ip);
                }
            }
            assert forall|i: int| 0 <= i < p implies (#[trigger] after[i]).0 != ip by {
                assert(before[i].0 != ip);
            }
            lemma_entry_at(after, ip, p as int);
            assert forall|other: IpAddr| other != ip implies #[trigger] count_in(after, other)
                == count_in(before, other) && (entry_of(after, other) < after.len() <==> entry_of(
                before,
                other,
            ) < before.len()) by {
                lemma_entry(before, other);
                lemma_entry(after, other);
                let e = entry_of(before, other);
                if e < before.len() {
                    assert forall|i: int| 0 <= i < e implies (#[trigger] after[i]).0 != other by {
                        assert(before[i].0 != other);
                    }
                    lemma_entry_at(after, other, e);
                } else {
                    let f = entry_of(after, other);
                    if f < after.len() && f < before.len() {
                        assert(before[f].0 != other);
                    }
                }
            }
            let expected = counts_in(before).insert(ip, count);
            assert forall|other: IpAddr| #[trigger]
                counts_in(after).contains_key(other) <==> expected.contains_key(other) by {
                assert(other != ip ==> count_in(after, other) == count_in(before, other));
            }
            assert forall|other: IpAddr| #[trigger]
                counts_in(after).contains_key(other) implies counts_in(after)[other]
                == expected[other] by {
                assert(other != ip ==> count_in(after, other) == count_in(before, other));
            }
            assert(counts_in(after) =~= expected);
        }
    }

    /// The connections of an address, which gets an entry where it has none.
    pub fn get_connection_counter(&mut self, ip: IpAddr) -> (n: usize)
        requires
            old(self).wf(),
        ensures
            final(self).wf(),
            final(self).turn() == old(self).turn(),
            n == old(self).count(ip),
            final(self).counts() == old(self).counts().insert(ip, n),
            forall|other: IpAddr| #[trigger] final(self).count(other) == old(self).count(other),
    {
        let count: usize = self.get_connection_count(ip);
        self.set_count(ip, count);
        count
    }

    /// Counts one more connection of an address.
    pub fn increment_connection(&mut self, ip: IpAddr)
        requires
            old(self).wf(),
        ensures
            final(self).wf(),
            final(self).turn() == old(self).turn(),
            final(self).counts() == old(self).counts().insert(ip, final(self).count(ip)),
            final(self).count(ip) == if old(self).count(ip) < usize::MAX {
                old(self).count(ip) + 1
            } else {
                0
            },
            forall|other: IpAddr|
                other != ip ==> #[trigger] final(self).count(other) == old(self).count(other),
    {
        let count: usize = self.get_connection_count(ip);
        self.set_count(ip, count.wrapping_add(1));
    }

    /// Counts one connection of an address less, down to none.
    pub fn decrement_connection(&mut self, ip: IpAddr)
        requires
            old(self).wf(),
        ensures
            final(self).wf(),
            final(self).turn() == old(self).turn(),
            final(self).counts() == old(self).counts().insert(ip, final(self).count(ip)),
            final(self).count(ip) == if old(self).count(ip) > 0 {
                old(self).count(ip) - 1
            } else {
                0
            },
            forall|other: IpAddr|
                other != ip ==> #[trigger] final(self).count(other) == old(self).count(other),
    {
        let count: usize = self.get_connection_count(ip);
        self.set_count(ip, count.saturating_sub(1));
    }

    /// The connections of an address.
    pub fn get_connection_count(&self, ip: IpAddr) -> (n: usize)
        ensures
            n == self.count(ip),
    {
        proof {
            lemma_entry(self.connection_counts@, ip);
        }
        let p: usize = self.place(ip);
        if p < self.connection_counts.len() {
            self.connection_counts[p].1
        } else {
            0
        }
    }

    /// Forgets the addresses that are not in use.
    pub fn cleanup_inactive_ips(&mut self, active_ips: &[IpAddr])
        requires
            old(self).wf(),
        ensures
            final(self).wf(),
            final(self).turn() == old(self).turn(),
            final(self).entries() == old(self).entries().filter(
                |e: (IpAddr, usize)| active_ips@.contains(e.0),
            ),
            final(self).counts() == old(self).counts().restrict(active_ips@.to_set()),
            forall|ip: IpAddr| #[trigger]
                final(self).count(ip) == if active_ips@.contains(ip) {
                    old(self).count(ip)
                } else {
                    0
                },
    {
        let ghost before: Seq<(IpAddr, usize)> = self.connection_counts@;
        let ghost pred: spec_fn((IpAddr, usize)) -> bool = |e: (IpAddr, usize)|
            active_ips@.contains(e.0);
        let mut kept: Vec<(IpAddr, usize)> = Vec::new();
        let mut i: usize = 0;
        assert(before.take(0).filter(pred) =~= Seq::empty()) by {
            reveal(Seq::filter);
        }
        while i < self.connection_counts.len()
            invariant
                i <= before.len(),
                before == self.connection_counts@,
                one_entry_each(before),
                pred == (|e: (IpAddr, usize)| active_ips@.contains(e.0)),
                kept@ == before.take(i as int).filter(pred),
                forall|j: int|
                    0 <= j < kept@.len() ==> before.take(i as int).contains(#[trigger] kept@[j]),
                one_entry_each(kept@),
                forall|ip: IpAddr| #[trigger]
                    count_in(kept@, ip) == if active_ips@.contains(ip) {
                        count_in(before.take(i as int), ip)
                    } else {
                        0
                    },
                forall|ip: IpAddr| #[trigger]
                    entry_of(kept@, ip) < kept@.len() <==> active_ips@.contains(ip) && entry_of(
                        before.take(i as int),
                        ip,
                    ) < i,
            decreases before.len() - i,
        {
            let entry: (IpAddr, usize) = self.connection_counts[i];
            let ghost seen: Seq<(IpAddr, usize)> = before.take(i as int);
            let ghost earlier: Seq<(IpAddr, usize)> = kept@;
            proof {
                assert(before.take(i + 1) =~= seen.push(entry));
                assert(before.take(i + 1).drop_last() =~= seen);
                reveal(Seq::filter);
            }
            if names_ip(active_ips, entry.0) {
                kept.push(entry);
            }
            proof {
                let now = before.take(i + 1);
                assert forall|j: int| 0 <= j < seen.len() implies (#[trigger] seen[j]).0
                    != entry.0 by {
                    assert(before[j].0 != before[i as int].0);
                }
                assert forall|j: int| 0 <= j < kept@.len() implies now.contains(
                    #[trigger] kept@[j],
                ) by {
                    if j < earlier.len() {
                        assert(seen.contains(earlier[j]));
                        let w = choose|w: int| 0 <= w < seen.len() && seen[w] == earlier[j];
                        assert(now[w] == kept@[j]);
                    } else {
                        assert(now[i as int] == kept@[j]);
                    }
                }
                assert forall|j: int| 0 <= j < earlier.len() implies (#[trigger] earlier[j]).0
                    != entry.0 by {
                    assert(seen.contains(earlier[j]));
                    let w = choose|w: int| 0 <= w < seen.len() && seen[w] == earlier[j];
                    assert(seen[w].0 != entry.0);
                }
                assert forall|ip: IpAddr| #[trigger] count_in(kept@, ip) == if active_ips@.contains(
                    ip,
                ) {
                    count_in(now, ip)
                } else {
                    0
                } by {
                    lemma_count_push(seen, entry, ip);
                    lemma_count_push(earlier, entry, ip);
                }
                assert forall|ip: IpAddr| #[trigger]
                    entry_of(kept@, ip) < kept@.len() <==> active_ips@.contains(ip) && entry_of(
                        now,
                        ip,
                    ) < i + 1 by {
                    lemma_count_push(seen, entry, ip);
                    lemma_count_push(earlier, entry, ip);
                    assert(entry_of(earlier, ip) < earlier.len() <==> active_ips@.contains(ip)
                        && entry_of(seen, ip) < i);
                }
            }
            i = i + 1;
        }
        assert(before.take(i as int) =~= before);
        self.connection_counts = kept;
        assert(self.counts() =~= counts_in(before).restrict(active_ips@.to_set()));
    }
}

proof fn lemma_count_push(counts: Seq<(IpAddr, usize)>, entry: (IpAddr, usize), ip: IpAddr)
    requires
        forall|j: int| 0 <= j < counts.len() ==> (#[trigger] counts[j]).0 != entry.0,
    ensures
        count_in(counts.push(entry), ip) == if ip == entry.0 {
            entry.1
        } else {
            count_in(counts, ip)
        },
        entry_of(counts.push(entry), ip) < counts.len() + 1 <==> ip == entry.0 || entry_of(
            counts,
            ip,
        ) < counts.len(),
{
    let after = counts.push(entry);
    lemma_entry(counts, ip);
    if ip == entry.0 {
        lemma_entry_at(after, ip, counts.len() as int);
    } else {
        let e = entry_of(counts, ip);
        if e < counts.len() {
            assert forall|i: int| 0 <= i < e implies (#[trigger] after[i]).0 != ip by {
                assert(counts[i].0 != ip);
            }
            lemma_entry_at(after, ip, e);
        } else {
            lemma_entry(after, ip);
            let f = entry_of(after, ip);
            if f < counts.len() {
                assert(counts[f].0 != ip);
            }
        }
    }
}

/// Whether an address is in a list.
pub fn names_ip(ips: &[IpAddr], ip: IpAddr) -> (b: bool)
    ensures
        b == ips@.contains(ip),
{
    let mut i: usize = 0;
    while i < ips.len()
        invariant
            i <= ips@.len(),
            forall|j: int| 0 <= j < i ==> ips@[j] != ip,
        decreases ips@.len() - i,
    {
        if ips[i] == ip {
            assert(ips@[i as int] == ip);
            return true;
        }
        i = i + 1;
    }
    false
}

/// There is no remote in use.
#[derive(Clone, Copy, Debug, PartialEq, Eq, Structural)]
pub struct NoActiveIps {}

/// Chooses the remotes of connections.
#[derive(Debug)]
pub struct LoadBalancer {
    pub algorithm: LoadBalanceAlgorithm,
    pub state: LoadBalancerState,
}

/// Whether a remote is the first of those with the fewest connections.
pub open spec fn is_least(state: LoadBalancerState, ips: Seq<IpAddr>, k: int) -> bool {
    &&& 0 <= k < ips.len()
    &&& forall|j: int|
        0 <= j < ips.len() ==> state.count(ips[k]) <= state.count(#[trigger] ips[j])
    &&& forall|j: int| 0 <= j < k ==> state.count(ips[k]) < state.count(#[trigger] ips[j])
}

impl LoadBalancer {
    /// A balancer that has seen no connection.
    pub fn new(algorithm: LoadBalanceAlgorithm) -> (b: LoadBalancer)
        ensures
            b.algorithm == algorithm,
            b.state.wf(),
            b.state.turn() == 0,
            b.state.counts() == Map::<IpAddr, usize>::empty(),
            forall|ip: IpAddr| #[trigger] b.state.count(ip) == 0,
    {
        LoadBalancer { algorithm, state: LoadBalancerState::new() }
    }

    /// Chooses the remote of a connection.
    pub fn select_target_ip(&mut self, ips: &[IpAddr]) -> (r: Result<IpAddr, NoActiveIps>)
        requires
            old(self).state.wf(),
        ensures
            final(self).state.wf(),
            final(self).algorithm == old(self).algorithm,
            final(self).state.entries() == old(self).state.entries(),
            r is Err <==> ips@.len() == 0,
            final(self).state.turn() == if ips@.len() > 0 && old(self).algorithm
                == LoadBalanceAlgorithm::RoundRobin {
                advanced_index(old(self).state.turn())
            } else {
                old(self).state.turn()
            },
            r matches Ok(ip) ==> match old(self).algorithm {
                LoadBalanceAlgorithm::LeastConnections => exists|k: int| #[trigger]
                    is_least(old(self).state, ips@, k) && ip == ips@[k],
                LoadBalanceAlgorithm::RoundRobin => ip == ips@[old(self).state.turn()
                    as int % ips@.len() as int],
                LoadBalanceAlgorithm::Random => ips@.contains(ip),
            },
            r matches Ok(ip) ==> ips@.contains(ip) && (old(self).algorithm
                == LoadBalanceAlgorithm::LeastConnections ==> forall|j: int|
                0 <= j < ips@.len() ==> old(self).state.count(ip) <= old(self).state.count(
                    #[trigger] ips@[j],
                )),
    {
        if ips.len() == 0 {
            return Err(NoActiveIps {  });
        }
        match self.algorithm {
            LoadBalanceAlgorithm::LeastConnections => Ok(self.select_least_connections(ips)),
            LoadBalanceAlgorithm::RoundRobin => Ok(self.select_round_robin(ips)),
            LoadBalanceAlgorithm::Random => Ok(self.select_random(ips)),
        }
    }

    /// The first remote with the fewest connections.
    pub fn select_least_connections(&self, ips: &[IpAddr]) -> (ip: IpAddr)
        requires
            ips@.len() > 0,
        ensures
            exists|k: int| #[trigger] is_least(self.state, ips@, k) && ip == ips@[k],
    {
        let mut k: usize = 0;
        let mut least: usize = self.state.get_connection_count(ips[0]);
        let mut i: usize = 1;
        while i < ips.len()
            invariant
                1 <= i <= ips@.len(),
                k < i,
                least == self.state.count(ips@[k as int]),
                forall|j: int| 0 <= j < i ==> least <= self.state.count(#[trigger] ips@[j]),
                forall|j: int| 0 <= j < k ==> least < self.state.count(#[trigger] ips@[j]),
            decreases ips@.len() - i,
        {
            let count: usize = self.state.get_connection_count(ips[i]);
            if count < least {
                least = count;
                k = i;
            }
            i = i + 1;
        }
        assert(is_least(self.state, ips@, k as int));
        ips[k]
    }

    /// The remote whose turn it is.
    pub fn select_round_robin(&mut self, ips: &[IpAddr]) -> (ip: IpAddr)
        requires
            ips@.len() > 0,
        ensures
            ip == ips@[old(self).state.turn() as int % ips@.len() as int],
            final(self).algorithm == old(self).algorithm,
            final(self).state.entries() == old(self).state.entries(),
            final(self).state.turn() == advanced_index(
                old(self).state.turn(),
            ),
    {
        let index: usize = self.state.round_robin_index;
        self.state.round_robin_index = index.wrapping_add(1);
        ips[index % ips.len()]
    }

    /// Any remote.
    pub fn select_random(&self, ips: &[IpAddr]) -> (ip: IpAddr)
        requires
            ips@.len() > 0,
        ensures
            ips@.contains(ip),
    {
        let mut rng: rand::rngs::ThreadRng = thread_rng();
        choose_one(&mut rng, ips).unwrap()
    }

    /// Counts a connection that starts, where the choice goes by connections.
    pub fn on_connection_start(&mut self, ip: IpAddr)
        requires
            old(self).state.wf(),
        ensures
            final(self).state.wf(),
            final(self).algorithm == old(self).algorithm,
            final(self).state.turn() == old(self).state.turn(),
            final(self).state.counts() == counted(
                old(self).algorithm,
                old(self).state.counts(),
                ip,
                started_count(old(self).algorithm, old(self).state.count(ip)),
            ),
            final(self).state.count(ip) == started_count(
                old(self).algorithm,
                old(self).state.count(ip),
            ),
            forall|other: IpAddr|
                other != ip ==> #[trigger] final(self).state.count(other) == old(self).state.count(
                    other,
                ),
    {
        if self.algorithm == LoadBalanceAlgorithm::LeastConnections {
            self.state.increment_connection(ip);
        }
    }

    /// Counts a connection that ends, where the choice goes by connections.
    pub fn on_connection_end(&mut self, ip: IpAddr)
        requires
            old(self).state.wf(),
        ensures
            final(self).state.wf(),
            final(self).algorithm == old(self).algorithm,
            final(self).state.turn() == old(self).state.turn(),
            final(self).state.counts() == counted(
                old(self).algorithm,
                old(self).state.counts(),
                ip,
                ended_count(old(self).algorithm, old(self).state.count(ip)),
            ),
            final(self).state.count(ip) == ended_count(
                old(self).algorithm,
                old(self).state.count(ip),
            ),
            forall|other: IpAddr|
                other != ip ==> #[trigger] final(self).state.count(other) == old(self).state.count(
                    other,
                ),
    {
        if self.algorithm == LoadBalanceAlgorithm::LeastConnections {
            self.state.decrement_connection(ip);
        }
    }

    /// Forgets the remotes that are not in use.
    pub fn cleanup_inactive_ips(&mut self, active_ips: &[IpAddr])
        requires
            old(self).state.wf(),
        ensures
            final(self).state.wf(),
            final(self).algorithm == old(self).algorithm,
            final(self).state.turn() == old(self).state.turn(),
            final(self).state.counts() == old(self).state.counts().restrict(active_ips@.to_set()),
            forall|ip: IpAddr| #[trigger]
                final(self).state.count(ip) == if active_ips@.contains(ip) {
                    old(self).state.count(ip)
                } else {
                    0
                },
    {
        self.state.cleanup_inactive_ips(active_ips);
    }

    /// The name of the algorithm.
    pub fn algorithm_name(&self) -> (name: &'static str)
        ensures
            name@ == name_of(self.algorithm),
    {
        match self.algorithm {
            LoadBalanceAlgorithm::LeastConnections => "least_connections",
            LoadBalanceAlgorithm::RoundRobin => "round_robin",
            LoadBalanceAlgorithm::Random => "random",
        }
    }

    /// The connections of each remote that has an entry.
    pub fn get_connection_stats(&self) -> (stats: Vec<(IpAddr, usize)>)
        ensures
            stats@ == self.state.entries(),
    {
        let mut stats: Vec<(IpAddr, usize)> = Vec::new();
        let mut i: usize = 0;
        while i < self.state.connection_counts.len()
            invariant
                i <= self.state.connection_counts@.len(),
                stats@ =~= self.state.connection_counts@.take(i as int),
            decreases self.state.connection_counts@.len() - i,
        {
            stats.push(self.state.connection_counts[i]);
            i = i + 1;
        }
        assert(stats@ =~= self.state.connection_counts@);
        stats
    }
}

/// The connections of each remote after those of one have been counted, which
/// only happens where the choice goes by them.
pub open spec fn counted(
    algorithm: LoadBalanceAlgorithm,
    counts: Map<IpAddr, usize>,
    ip: IpAddr,
    count: usize,
) -> Map<IpAddr, usize> {
    if algorithm == LoadBalanceAlgorithm::LeastConnections {
        counts.insert(ip, count)
    } else {
        counts
    }
}

/// The connections of a remote after one more starts.
pub open spec fn started_count(algorithm: LoadBalanceAlgorithm, count: usize) -> usize {
    if algorithm != LoadBalanceAlgorithm::LeastConnections {
        count
    } else if count < usize::MAX {
        (count + 1) as usize
    } else {
        0
    }
}

/// The connections of a remote after one ends.
pub open spec fn ended_count(algorithm: LoadBalanceAlgorithm, count: usize) -> usize {
    if algorithm != LoadBalanceAlgorithm::LeastConnections || count == 0 {
        count
    } else {
        (count - 1) as usize
    }
}

/// A connection that starts and ends leaves the count of its remote as it was,
/// as long as the count does not start over.
pub proof fn start_then_end(algorithm: LoadBalanceAlgorithm, count: usize)
    requires
        count < usize::MAX,
    ensures
        ended_count(algorithm, started_count(algorithm, count)) == count,
{
}

/// The next turn. Turns start over after the largest number.
pub open spec fn advanced_index(index: usize) -> usize {
    if index < usize::MAX {
        (index + 1) as usize
    } else {
        0
    }
}

/// The name of an algorithm.
pub open spec fn name_of(algorithm: LoadBalanceAlgorithm) -> Seq<char> {
    match algorithm {
        LoadBalanceAlgorithm::LeastConnections => "least_connections"@,
        LoadBalanceAlgorithm::RoundRobin => "round_robin"@,
        LoadBalanceAlgorithm::Random => "random"@,
    }
}

/// The name of an algorithm gives the algorithm back.
pub proof fn name_gives_algorithm_back(algorithm: LoadBalanceAlgorithm)
    ensures
        algorithm_named(name_of(algorithm)) == algorithm,
{
    reveal_strlit("least_connections");
    reveal_strlit("round_robin");
    reveal_strlit("random");
    assert("least_connections"@.len() == 17 && "round_robin"@.len() == 11 && "random"@.len() == 6);
}

/// The turn that is reached after some turns.
pub open spec fn turned(index: usize, turns: nat) -> usize
    decreases turns,
{
    if turns == 0 {
        index
    } else {
        advanced_index(turned(index, (turns - 1) as nat))
    }
}

proof fn lemma_turned(index: usize, turns: nat)
    requires
        index + turns <= usize::MAX,
    ensures
        turned(index, turns) == index + turns,
    decreases turns,
{
    if turns > 0 {
        lemma_turned(index, (turns - 1) as nat);
    }
}

/// Turns go round: as many turns later as there are remotes, it is the turn of
/// the same remote, as long as turns do not start over.
pub proof fn turns_go_round(index: usize, n: nat)
    requires
        n > 0,
        index + n <= usize::MAX,
    ensures
        turned(index, n) as int % n as int == index as int % n as int,
{
    lemma_turned(index, n);
    vstd::arithmetic::div_mod::lemma_mod_add_multiples_vanish(index as int, n as int);
}

/// Turns are shared evenly: within as many turns as there are remotes, no
/// remote has its turn twice, so that each has it once.
pub proof fn turns_are_shared(index: usize, n: nat, i: nat, j: nat)
    requires
        index + n <= usize::MAX,
        i < j < n,
    ensures
        turned(index, i) as int % n as int != turned(index, j) as int % n as int,
{
    lemma_turned(index, i);
    lemma_turned(index, j);
    let a = index + i;
    let b = index + j;
    if a % (n as int) == b % (n as int) {
        vstd::arithmetic::div_mod::lemma_fundamental_div_mod(a, n as int);
        vstd::arithmetic::div_mod::lemma_fundamental_div_mod(b, n as int);
        let steps = b / (n as int) - a / (n as int);
        assert(n * steps == j - i) by (nonlinear_arith)
            requires
                steps == b / (n as int) - a / (n as int),
                a == n * (a / (n as int)) + a % (n as int),
                b == n * (b / (n as int)) + b % (n as int),
                a % (n as int) == b % (n as int),
                b - a == j - i,
        ;
        assert(false) by (nonlinear_arith)
            requires
                n * steps == j - i,
                0 < j - i < n,
        ;
    }
}

/// The remote with the fewest connections is the first that no other one has
/// fewer than.
pub proof fn least_has_fewest(state: LoadBalancerState, ips: Seq<IpAddr>, k: int, j: int)
    requires
        is_least(state, ips, k),
        0 <= j < ips.len(),
    ensures
        0 <= k < ips.len(),
        state.count(ips[k]) <= state.count(ips[j]),
        j < k ==> state.count(ips[k]) < state.count(ips[j]),
{
}

/// The count of an address is that of its entry, and zero where it has none.
pub proof fn counts_are_those_of_entries(counts: Seq<(IpAddr, usize)>, ip: IpAddr, i: int)
    requires
        one_entry_each(counts),
    ensures
        0 <= i < counts.len() && counts[i].0 == ip ==> count_in(counts, ip) == counts[i].1
            && counts_in(counts).contains_key(ip) && counts_in(counts)[ip] == counts[i].1,
        (forall|j: int| 0 <= j < counts.len() ==> (#[trigger] counts[j]).0 != ip) ==> count_in(
            counts,
            ip,
        ) == 0 && !counts_in(counts).contains_key(ip),
{
    lemma_entry(counts, ip);
    if 0 <= i < counts.len() && counts[i].0 == ip {
        lemma_entry_at(counts, ip, i);
    }
    if forall|j: int| 0 <= j < counts.len() ==> (#[trigger] counts[j]).0 != ip {
        if entry_of(counts, ip) < counts.len() {
            assert(counts[entry_of(counts, ip)].0 == ip);
        }
    }
}

/// Where the connections decide, a start is one more and an end one fewer, but
/// never fewer than none. Where they do not, they are not counted.
pub proof fn connections_are_counted(
    algorithm: LoadBalanceAlgorithm,
    counts: Map<IpAddr, usize>,
    ip: IpAddr,
    count: usize,
)
    ensures
        algorithm is LeastConnections ==> {
            &&& count < usize::MAX ==> started_count(algorithm, count) == count + 1
            &&& count == usize::MAX ==> started_count(algorithm, count) == 0
            &&& count > 0 ==> ended_count(algorithm, count) == count - 1
            &&& ended_count(algorithm, 0) == 0
            &&& counted(algorithm, counts, ip, count) == counts.insert(ip, count)
        },
        !(algorithm is LeastConnections) ==> {
            &&& started_count(algorithm, count) == count
            &&& ended_count(algorithm, count) == count
            &&& counted(algorithm, counts, ip, count) == counts
        },
{
}

/// A turn goes to the remote behind the one that had the turn before, and from
/// the last to the first.
pub proof fn turns_go_to_the_next(index: usize, n: nat)
    requires
        n > 0,
        index < usize::MAX,
    ensures
        index as int % n as int + 1 < n ==> advanced_index(index) as int % n as int == index as int
            % n as int + 1,
        index as int % n as int + 1 == n ==> advanced_index(index) as int % n as int == 0,
        advanced_index(usize::MAX) == 0,
{
    let i: int = index as int;
    let m: int = n as int;
    assert(i % m + 1 < m ==> (i + 1) % m == i % m + 1) by (nonlinear_arith)
        requires
            m > 0,
            i >= 0,
    ;
    assert(i % m + 1 == m ==> (i + 1) % m == 0) by (nonlinear_arith)
        requires
            m > 0,
            i >= 0,
    ;
}

/// A name that is that of no other algorithm stands for the fewest connections.
pub proof fn other_names_mean_fewest_connections(name: Seq<char>)
    ensures
        algorithm_named(name) is RoundRobin <==> name == "round_robin"@,
        algorithm_named(name) is Random <==> name == "random"@,
        algorithm_named(name) is LeastConnections <==> name != "round_robin"@ && name
            != "random"@,
{
    reveal_strlit("round_robin");
    reveal_strlit("random");
    assert("round_robin"@.len() != "random"@.len());
}

} // verus!
