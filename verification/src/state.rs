//! The networks found by scans, and the addresses to forward to.
use crate::model::SubnetQuality;
use crate::net::{IpAddr, IpNet};
use crate::random::{choose_multiple, thread_rng};
use crate::sort::{is_ranking, rank, ranking_reaches_all};
use crate::text::{same_str, string_views};
use crate::utils::{generate_random_ip_in_subnet, is_host_of};
use vstd::prelude::*;

verus! {

/// A network as integers: the family, the address and the prefix length.
pub type NetKey = (u8, u128, u8);

/// The integers of a network.
pub open spec fn net_key(net: IpNet) -> NetKey {
    match net {
        IpNet::V4 { addr, prefix_len } => (4u8, addr as u128, prefix_len),
        IpNet::V6 { addr, prefix_len } => (6u8, addr, prefix_len),
    }
}

/// Different networks have different integers.
pub proof fn net_key_separates(a: IpNet, b: IpNet)
    requires
        net_key(a) == net_key(b),
    ensures
        a == b,
{
}

fn key_of(net: &IpNet) -> (key: NetKey)
    ensures
        key == net_key(*net),
{
    match net {
        IpNet::V4 { addr, prefix_len } => (4u8, *addr as u128, *prefix_len),
        IpNet::V6 { addr, prefix_len } => (6u8, *addr, *prefix_len),
    }
}

/// The concurrent map of `dashmap`.
#[verifier::external_type_specification]
#[verifier::external_body]
#[verifier::reject_recursive_types(K)]
#[verifier::reject_recursive_types(V)]
#[verifier::reject_recursive_types(S)]
pub struct ExDashMap<K, V, S>(dashmap::DashMap<K, V, S>);

/// What a map holds.
pub uninterp spec fn stored(map: dashmap::DashMap<NetKey, SubnetQuality>) -> Map<
    NetKey,
    SubnetQuality,
>;

/// The map with no record.
pub open spec fn no_records() -> Map<NetKey, SubnetQuality> {
    Map::empty()
}

/// Calls `dashmap::DashMap::new`: the map holds nothing.
#[verifier::external_body]
fn map_new() -> (map: dashmap::DashMap<NetKey, SubnetQuality>)
    ensures
        stored(map) == no_records(),
{
    dashmap::DashMap::new()
}

/// Calls `dashmap::DashMap::insert`: the key now has the value, and every other
/// key what it had.
#[verifier::external_body]
fn map_insert(
    map: &mut dashmap::DashMap<NetKey, SubnetQuality>,
    key: NetKey,
    value: SubnetQuality,
)
    ensures
        stored(*final(map)) == stored(*old(map)).insert(key, value),
{
    map.insert(key, value);
}

/// Calls `dashmap::DashMap::remove`: the key is gone, every other key has what
/// it had, and the result says whether the key was there.
#[verifier::external_body]
fn map_remove(map: &mut dashmap::DashMap<NetKey, SubnetQuality>, key: &NetKey) -> (was: bool)
    ensures
        stored(*final(map)) == stored(*old(map)).remove(*key),
        was == stored(*old(map)).contains_key(*key),
{
    map.remove(key).is_some()
}

/// Calls `dashmap::DashMap::clear`: the map holds nothing.
#[verifier::external_body]
fn map_clear(map: &mut dashmap::DashMap<NetKey, SubnetQuality>)
    ensures
        stored(*final(map)) == no_records(),
{
    map.clear()
}

/// Calls `dashmap::DashMap::len`, which counts the keys.
#[verifier::external_body]
fn map_len(map: &dashmap::DashMap<NetKey, SubnetQuality>) -> (n: usize)
    ensures
        n == stored(*map).len(),
{
    map.len()
}

/// Calls `dashmap::DashMap::get` and copies the value out: the value of the
/// key, or nothing where the key is not there.
#[verifier::external_body]
fn map_get(map: &dashmap::DashMap<NetKey, SubnetQuality>, key: &NetKey) -> (r: Option<
    SubnetQuality,
>)
    ensures
        match r {
            Some(value) => stored(*map).contains_key(*key) && value == stored(*map)[*key],
            None => !stored(*map).contains_key(*key),
        },
{
    map.get(key).map(|entry| entry.value().clone())
}

/// Calls `dashmap::DashMap::iter` and copies the entries out: every key once,
/// with its value, in no order that is known.
#[verifier::external_body]
fn map_entries(map: &dashmap::DashMap<NetKey, SubnetQuality>) -> (entries: Vec<
    (NetKey, SubnetQuality),
>)
    ensures
        lists(entries@, stored(*map)),
{
    map.iter().map(|entry| (*entry.key(), entry.value().clone())).collect()
}

/// Whether a list has every entry of a map once, in some order.
pub open spec fn lists(
    entries: Seq<(NetKey, SubnetQuality)>,
    map: Map<NetKey, SubnetQuality>,
) -> bool {
    &&& entries.len() == map.len()
    &&& forall|i: int|
        0 <= i < entries.len() ==> map.contains_key((#[trigger] entries[i]).0) && map[entries[i].0]
            == entries[i].1
    &&& forall|i: int, j: int|
        0 <= i < j < entries.len() ==> (#[trigger] entries[i]).0 != (#[trigger] entries[j]).0
    &&& forall|key: NetKey| #[trigger]
        map.contains_key(key) ==> exists|i: int|
            0 <= i < entries.len() && (#[trigger] entries[i]).0 == key
}

/// The first moment that a clock of this library can show.
pub const MIN_TIME: i128 = -8_334_601_315_200_000_000_000;

/// The last moment that a clock of this library can show.
pub const MAX_TIME: i128 = 8_210_266_876_799_999_999_999;

/// A lifetime in seconds, as the signed number with the same bits.
pub open spec fn signed_secs(ttl_secs: u64) -> int {
    if ttl_secs <= i64::MAX {
        ttl_secs as int
    } else {
        ttl_secs - 0x1_0000_0000_0000_0000
    }
}

/// The moment before which a record is too old.
pub open spec fn cutoff(now: int, ttl_secs: u64) -> int {
    now - signed_secs(ttl_secs) * 1_000_000_000
}

/// Whether the moment before which a record is too old can be shown.
pub open spec fn cutoff_in_range(now: int, ttl_secs: u64) -> bool {
    &&& MIN_TIME <= now <= MAX_TIME
    &&& ttl_secs != 0 ==> MIN_TIME <= cutoff(now, ttl_secs) <= MAX_TIME
}

/// The records that are young enough. With a lifetime of zero all are.
pub open spec fn unexpired(
    map: Map<NetKey, SubnetQuality>,
    now: int,
    ttl_secs: u64,
) -> Map<NetKey, SubnetQuality> {
    if ttl_secs == 0 {
        map
    } else {
        map.restrict(Set::new(|key: NetKey| map[key].last_updated >= cutoff(now, ttl_secs)))
    }
}

/// Whether a record is evicted no later than another: its score is lower, or
/// the scores are the same and it is not younger.
pub open spec fn evicted_first(a: SubnetQuality, b: SubnetQuality) -> bool {
    ||| a.score.total_rank() < b.score.total_rank()
    ||| a.score.total_rank() == b.score.total_rank() && a.last_updated <= b.last_updated
}

/// Whether `after` is what is left of `before` when the worst records go until
/// at most `max` are left.
pub open spec fn is_eviction(
    before: Map<NetKey, SubnetQuality>,
    after: Map<NetKey, SubnetQuality>,
    max: int,
) -> bool {
    &&& after.submap_of(before)
    &&& after.len() == if before.len() <= max {
        before.len() as int
    } else {
        max
    }
    &&& forall|gone: NetKey, kept: NetKey|
        before.contains_key(gone) && !after.contains_key(gone) && after.contains_key(kept)
            ==> evicted_first(#[trigger] before[gone], #[trigger] before[kept])
}

/// Whether `best` are the `k` networks with the highest scores, best first.
pub open spec fn are_best(best: Seq<IpNet>, map: Map<NetKey, SubnetQuality>, k: int) -> bool {
    &&& best.len() == k
    &&& forall|i: int|
        0 <= i < best.len() ==> map.contains_key(net_key(#[trigger] best[i])) && map[net_key(
            best[i],
        )].subnet == best[i]
    &&& forall|i: int, j: int|
        0 <= i < j < best.len() ==> #[trigger] best[i] != #[trigger] best[j] && map[net_key(
            best[i],
        )].score.total_rank() >= map[net_key(best[j])].score.total_rank()
    &&& forall|key: NetKey, i: int|
        0 <= i < best.len() && #[trigger] map.contains_key(key) && (forall|j: int|
            0 <= j < best.len() ==> net_key(#[trigger] best[j]) != key)
            ==> map[key].score.total_rank() <= map[net_key(#[trigger] best[i])].score.total_rank()
}

/// Whether a network may be used: it is known, and in one of the data centres
/// asked for. With none asked for, all may.
pub open spec fn colo_allowed(
    map: Map<NetKey, SubnetQuality>,
    colos: Seq<Seq<char>>,
    net: IpNet,
) -> bool {
    colos.len() == 0 || (map.contains_key(net_key(net)) && colos.contains(
        map[net_key(net)].colo@,
    ))
}

/// The networks that may be used, in order.
pub open spec fn allowed(
    map: Map<NetKey, SubnetQuality>,
    colos: Seq<Seq<char>>,
    nets: Seq<IpNet>,
) -> Seq<IpNet> {
    nets.filter(|net: IpNet| colo_allowed(map, colos, net))
}

/// Whether `selected` is a choice of `n` of the candidates, or all of them
/// where there are no more.
pub open spec fn is_selection(selected: Seq<IpNet>, candidates: Seq<IpNet>, n: int) -> bool {
    if candidates.len() <= n {
        selected == candidates
    } else {
        selected.len() == n && selected.to_multiset().subset_of(candidates.to_multiset())
    }
}

/// Whether `ips` are `m` addresses of each network in turn.
pub open spec fn are_targets(ips: Seq<IpAddr>, nets: Seq<IpNet>, m: int) -> bool {
    &&& ips.len() == nets.len() * m
    &&& forall|i: int, j: int|
        0 <= i < nets.len() && 0 <= j < m ==> is_host_of(
            ips[#[trigger] target_place(i, j, m)],
            nets[i],
        )
}

/// Where the `j`-th address of the `i`-th network stands.
pub open spec fn target_place(i: int, j: int, m: int) -> int {
    i * m + j
}

/// The networks found by scans, and the best of them.
pub struct IpManager {
    subnets: dashmap::DashMap<NetKey, SubnetQuality>,
    best_subnets_cache: Vec<IpNet>,
}

impl Default for IpManager {
    fn default() -> (m: Self)
        ensures
            m.wf(),
            m.contents() == no_records(),
            m.best() == Seq::<IpNet>::empty(),
    {
        IpManager::new()
    }
}

impl IpManager {
    /// The records, by network.
    pub closed spec fn contents(&self) -> Map<NetKey, SubnetQuality> {
        stored(self.subnets)
    }

    /// The best networks as of the last time they were determined.
    pub closed spec fn best(&self) -> Seq<IpNet> {
        self.best_subnets_cache@
    }

    /// There are finitely many records, each stands under its own network, every
    /// network is well formed, and the best networks are different.
    pub open spec fn wf(&self) -> bool {
        &&& self.contents().dom().finite()
        &&& forall|key: NetKey| #[trigger]
            self.contents().contains_key(key) ==> key == net_key(self.contents()[key].subnet)
                && self.contents()[key].subnet.wf()
        &&& forall|i: int| 0 <= i < self.best().len() ==> (#[trigger] self.best()[i]).wf()
        &&& self.best().no_duplicates()
    }

    /// A manager that knows no network.
    pub fn new() -> (m: IpManager)
        ensures
            m.wf(),
            m.contents() == no_records(),
            m.best() == Seq::<IpNet>::empty(),
    {
        IpManager { subnets: map_new(), best_subnets_cache: Vec::new() }
    }

    /// Records what is known of a network, in place of what was known of it.
    pub fn update_subnet(&mut self, quality: SubnetQuality)
        requires
            old(self).wf(),
            quality.subnet.wf(),
        ensures
            final(self).wf(),
            final(self).contents() == old(self).contents().insert(
                net_key(quality.subnet),
                quality,
            ),
            final(self).best() == old(self).best(),
    {
        let ghost before: Map<NetKey, SubnetQuality> = self.contents();
        let ghost added: SubnetQuality = quality;
        let key: NetKey = key_of(&quality.subnet);
        map_insert(&mut self.subnets, key, quality);
        assert(self.contents() == before.insert(key, added));
        assert(self.contents().dom() =~= before.dom().insert(key));
        assert(self.contents().dom().finite());
        assert(self.best() == old(self).best());
        assert forall|k: NetKey| #[trigger] self.contents().contains_key(k) implies k == net_key(
            self.contents()[k].subnet,
        ) && self.contents()[k].subnet.wf() by {
            if k != key {
                assert(before.contains_key(k));
            }
        }
    }

    /// Records what is known of some networks, one after another.
    pub fn update_subnets(&mut self, records: &Vec<SubnetQuality>)
        requires
            old(self).wf(),
            forall|i: int| 0 <= i < records@.len() ==> (#[trigger] records@[i]).subnet.wf(),
        ensures
            final(self).wf(),
            final(self).contents() == with_records(old(self).contents(), records@),
            final(self).best() == old(self).best(),
    {
        let ghost before: Map<NetKey, SubnetQuality> = self.contents();
        let mut i: usize = 0;
        assert(records@.take(0) =~= Seq::empty());
        while i < records.len()
            invariant
                i <= records@.len(),
                self.wf(),
                forall|j: int| 0 <= j < records@.len() ==> (#[trigger] records@[j]).subnet.wf(),
                self.contents() == with_records(before, records@.take(i as int)),
                self.best() == old(self).best(),
            decreases records@.len() - i,
        {
            assert(records@.take(i + 1).drop_last() =~= records@.take(i as int));
            assert(records@.take(i + 1).last() == records@[i as int]);
            self.update_subnet(records[i].clone());
            i = i + 1;
        }
        assert(records@.take(i as int) =~= records@);
    }

    /// Drops the records that are too old and says how many these were.
    pub fn remove_expired(&mut self, now: i128, ttl_secs: u64) -> (removed: usize)
        requires
            old(self).wf(),
            cutoff_in_range(now as int, ttl_secs),
        ensures
            final(self).wf(),
            final(self).contents() == unexpired(old(self).contents(), now as int, ttl_secs),
            removed == old(self).contents().len() - final(self).contents().len(),
            final(self).best() == old(self).best(),
    {
        if ttl_secs == 0 {
            return 0;
        }
        let ghost before: Map<NetKey, SubnetQuality> = self.contents();
        let secs: i128 = if ttl_secs <= 0x7FFF_FFFF_FFFF_FFFF {
            ttl_secs as i128
        } else {
            ttl_secs as i128 - 0x1_0000_0000_0000_0000
        };
        let limit: i128 = now - secs * 1_000_000_000;
        let entries: Vec<(NetKey, SubnetQuality)> = map_entries(&self.subnets);
        let mut removed: usize = 0;
        let mut i: usize = 0;
        while i < entries.len()
            invariant
                i <= entries@.len(),
                lists(entries@, before),
                self.wf(),
                before.dom().finite(),
                self.best() == old(self).best(),
                forall|key: NetKey| #[trigger]
                    self.contents().contains_key(key) <==> before.contains_key(key) && !(exists|
                        j: int,
                    |
                        0 <= j < i && (#[trigger] entries@[j]).0 == key
                            && entries@[j].1.last_updated < limit),
                self.contents().submap_of(before),
                removed == before.len() - self.contents().len(),
            decreases entries@.len() - i,
        {
            if entries[i].1.last_updated < limit {
                let key: NetKey = entries[i].0;
                let ghost earlier: Map<NetKey, SubnetQuality> = self.contents();
                assert(earlier.contains_key(key)) by {
                    assert(before.contains_key(entries@[i as int].0));
                }
                if map_remove(&mut self.subnets, &key) {
                    removed = removed.saturating_add(1);
                }
                assert(self.contents() == earlier.remove(key));
                assert forall|k: NetKey| #[trigger]
                    self.contents().contains_key(k) <==> before.contains_key(k) && !(exists|
                        j: int,
                    |
                        0 <= j < i + 1 && (#[trigger] entries@[j]).0 == k
                            && entries@[j].1.last_updated < limit) by {
                    if k == key {
                        assert(entries@[i as int].0 == k);
                    } else {
                        assert(self.contents().contains_key(k) <==> earlier.contains_key(k));
                    }
                }
            }
            i = i + 1;
        }
        proof {
            let kept = unexpired(before, now as int, ttl_secs);
            assert forall|key: NetKey| #[trigger]
                self.contents().contains_key(key) <==> kept.contains_key(key) by {
                if before.contains_key(key) {
                    let j = choose|j: int|
                        0 <= j < entries@.len() && (#[trigger] entries@[j]).0 == key;
                    assert(before[entries@[j].0] == entries@[j].1);
                    if before[key].last_updated >= limit {
                        assert forall|x: int|
                            0 <= x < entries@.len() && (#[trigger] entries@[x]).0 == key implies
                            entries@[x].1.last_updated >= limit by {
                            assert(before[entries@[x].0] == entries@[x].1);
                        }
                    }
                }
            }
            assert(self.contents() =~= kept);
        }
        removed
    }

    /// Drops the worst records, where there are more than `max_subnets`, and
    /// says how many these were.
    pub fn evict_if_needed(&mut self, max_subnets: usize) -> (removed: usize)
        requires
            old(self).wf(),
        ensures
            final(self).wf(),
            is_eviction(old(self).contents(), final(self).contents(), max_subnets as int),
            removed == old(self).contents().len() - final(self).contents().len(),
            final(self).best() == old(self).best(),
    {
        let current: usize = map_len(&self.subnets);
        if current <= max_subnets {
            return 0;
        }
        let need_remove: usize = current - max_subnets;
        let ghost before: Map<NetKey, SubnetQuality> = self.contents();
        let entries: Vec<(NetKey, SubnetQuality)> = map_entries(&self.subnets);
        let mut keys: Vec<(i64, i128)> = Vec::new();
        let mut i: usize = 0;
        while i < entries.len()
            invariant
                i <= entries@.len(),
                keys@.len() == i,
                forall|j: int|
                    0 <= j < i ==> (#[trigger] keys@[j]).0 == entries@[j].1.score.total_rank()
                        && keys@[j].1 == entries@[j].1.last_updated,
            decreases entries@.len() - i,
        {
            keys.push((entries[i].1.score.total_key(), entries[i].1.last_updated));
            i = i + 1;
        }
        let order: Vec<usize> = rank(&keys);
        let mut removed: usize = 0;
        let mut k: usize = 0;
        while k < need_remove
            invariant
                k <= need_remove <= order@.len(),
                removed == k,
                order@.len() == entries@.len() == keys@.len(),
                is_ranking(order@, keys@),
                lists(entries@, before),
                before.dom().finite(),
                self.wf(),
                self.best() == old(self).best(),
                self.contents().submap_of(before),
                self.contents().len() == before.len() - k,
                forall|key: NetKey| #[trigger]
                    self.contents().contains_key(key) <==> before.contains_key(key) && !(exists|
                        j: int,
                    |
                        0 <= j < k && entries@[#[trigger] order@[j] as int].0 == key),
            decreases need_remove - k,
        {
            let place: usize = order[k];
            let key: NetKey = entries[place].0;
            let ghost earlier: Map<NetKey, SubnetQuality> = self.contents();
            assert(earlier.contains_key(key)) by {
                assert(before.contains_key(entries@[place as int].0));
                assert forall|j: int| 0 <= j < k implies entries@[#[trigger] order@[j] as int].0
                    != key by {
                    assert(order@[j] != order@[k as int]);
                    if order@[j] < place {
                        assert(entries@[order@[j] as int].0 != entries@[place as int].0);
                    } else {
                        assert(entries@[place as int].0 != entries@[order@[j] as int].0);
                    }
                }
            }
            if map_remove(&mut self.subnets, &key) {
                removed = removed.saturating_add(1);
            }
            assert(self.contents() == earlier.remove(key));
            assert forall|x: NetKey| #[trigger]
                self.contents().contains_key(x) <==> before.contains_key(x) && !(exists|j: int|
                    0 <= j < k + 1 && entries@[#[trigger] order@[j] as int].0 == x) by {
                if x == key {
                    assert(entries@[order@[k as int] as int].0 == x);
                } else {
                    assert(self.contents().contains_key(x) <==> earlier.contains_key(x));
                }
            }
            k = k + 1;
        }
        proof {
            let after = self.contents();
            assert forall|gone: NetKey, kept: NetKey|
                before.contains_key(gone) && !after.contains_key(gone) && after.contains_key(
                    kept,
                ) implies evicted_first(#[trigger] before[gone], #[trigger] before[kept]) by {
                let a = choose|a: int|
                    0 <= a < k && entries@[#[trigger] order@[a] as int].0 == gone;
                assert(before.contains_key(kept));
                let place = choose|p: int|
                    0 <= p < entries@.len() && (#[trigger] entries@[p]).0 == kept;
                ranking_reaches_all(order@, keys@, place);
                let b = choose|b: int| 0 <= b < order@.len() && #[trigger] order@[b] == place;
                assert(b >= k) by {
                    if b < k {
                        assert(entries@[order@[b] as int].0 == kept);
                    }
                }
                assert(before[entries@[order@[a] as int].0] == entries@[order@[a] as int].1);
                assert(before[entries@[place].0] == entries@[place].1);
                assert(order@[a] != order@[b]);
                let x = keys@[order@[a] as int];
                let y = keys@[order@[b] as int];
                assert(crate::sort::key_at_most(x, y));
            }
        }
        removed
    }

    /// Drops the records that are too old, then the worst of those that are
    /// too many, and says how many were dropped for either reason.
    pub fn cleanup_subnets(&mut self, now: i128, ttl_secs: u64, max_subnets: usize) -> (removed: (
        usize,
        usize,
    ))
        requires
            old(self).wf(),
            cutoff_in_range(now as int, ttl_secs),
        ensures
            final(self).wf(),
            is_eviction(
                unexpired(old(self).contents(), now as int, ttl_secs),
                final(self).contents(),
                max_subnets as int,
            ),
            removed.0 == old(self).contents().len() - unexpired(
                old(self).contents(),
                now as int,
                ttl_secs,
            ).len(),
            removed.1 == unexpired(old(self).contents(), now as int, ttl_secs).len()
                - final(self).contents().len(),
            final(self).best() == old(self).best(),
    {
        let expired: usize = self.remove_expired(now, ttl_secs);
        let evicted: usize = self.evict_if_needed(max_subnets);
        (expired, evicted)
    }

    /// Decides how to get from the permits that are free to a limit. What is taken
    /// away is counted in 32 bits.
    pub fn set_max_open_files(available: usize, max: usize) -> (change: PermitChange)
        ensures
            max > available ==> change == PermitChange::Add((max - available) as usize),
            max == available ==> change == PermitChange::Keep,
            max < available ==> (change matches PermitChange::Forget(n) && n == (available - max)
                % 0x1_0000_0000),
    {
        if max > available {
            return PermitChange::Add(max - available);
        }
        if max < available {
            let diff: u64 = (available - max) as u64;
            return PermitChange::Forget((diff % 0x1_0000_0000) as u32);
        }
        PermitChange::Keep
    }

    /// Determines the best networks anew. `k` is how many are wanted; at least
    /// one is kept where there is any.
    pub fn recalculate_best_subnets(&mut self, k: usize)
        requires
            old(self).wf(),
        ensures
            final(self).wf(),
            final(self).contents() == old(self).contents(),
            are_best(
                final(self).best(),
                old(self).contents(),
                best_count(old(self).contents().len() as int, k as int),
            ),
    {
        let ghost map: Map<NetKey, SubnetQuality> = self.contents();
        let entries: Vec<(NetKey, SubnetQuality)> = map_entries(&self.subnets);
        if entries.len() == 0 {
            self.best_subnets_cache = Vec::new();
            return;
        }
        let mut keys: Vec<(i64, i128)> = Vec::new();
        let mut i: usize = 0;
        while i < entries.len()
            invariant
                i <= entries@.len(),
                keys@.len() == i,
                forall|j: int|
                    0 <= j < i ==> (#[trigger] keys@[j]).0 == -entries@[j].1.score.total_rank()
                        && keys@[j].1 == 0,
            decreases entries@.len() - i,
        {
            keys.push((-entries[i].1.score.total_key(), 0));
            i = i + 1;
        }
        let order: Vec<usize> = rank(&keys);
        let count: usize = calculate_top_k(entries.len(), k);
        let mut best: Vec<IpNet> = Vec::new();
        let mut n: usize = 0;
        while n < count
            invariant
                n <= count <= order@.len(),
                order@.len() == entries@.len() == keys@.len(),
                is_ranking(order@, keys@),
                best@.len() == n,
                forall|j: int|
                    0 <= j < n ==> #[trigger] best@[j] == entries@[order@[j] as int].1.subnet,
            decreases count - n,
        {
            best.push(entries[order[n]].1.subnet);
            n = n + 1;
        }
        proof {
            assert forall|j: int| 0 <= j < best@.len() implies net_key(#[trigger] best@[j])
                == entries@[order@[j] as int].0 && map.contains_key(net_key(best@[j]))
                && map[net_key(best@[j])] == entries@[order@[j] as int].1 by {
                assert(map.contains_key(entries@[order@[j] as int].0));
            }
            assert forall|x: int, y: int| 0 <= x < y < best@.len() implies #[trigger] best@[x]
                != #[trigger] best@[y] && map[net_key(best@[x])].score.total_rank() >= map[net_key(
                best@[y],
            )].score.total_rank() by {
                assert(order@[x] != order@[y]);
                assert(crate::sort::key_at_most(keys@[order@[x] as int], keys@[order@[y] as int]));
                if order@[x] < order@[y] {
                    assert(entries@[order@[x] as int].0 != entries@[order@[y] as int].0);
                } else {
                    assert(entries@[order@[y] as int].0 != entries@[order@[x] as int].0);
                }
            }
            assert forall|key: NetKey, x: int|
                0 <= x < best@.len() && #[trigger] map.contains_key(key) && (forall|j: int|
                    0 <= j < best@.len() ==> net_key(#[trigger] best@[j]) != key) implies map[
                key].score.total_rank() <= map[net_key(#[trigger] best@[x])].score.total_rank() by {
                let place = choose|p: int|
                    0 <= p < entries@.len() && (#[trigger] entries@[p]).0 == key;
                ranking_reaches_all(order@, keys@, place);
                let y = choose|y: int| 0 <= y < order@.len() && #[trigger] order@[y] == place;
                assert(y >= best@.len()) by {
                    if y < best@.len() {
                        assert(net_key(best@[y]) == key);
                    }
                }
                assert(order@[x] != order@[y]);
                assert(crate::sort::key_at_most(keys@[order@[x] as int], keys@[order@[y] as int]));
                assert(map[entries@[place].0] == entries@[place].1);
            }
        }
        self.best_subnets_cache = best;
        proof {
            assert forall|j: int|
                0 <= j < self.best().len() implies (#[trigger] self.best()[j]).wf() by {
                assert(map.contains_key(net_key(best@[j])));
            }
            assert(self.contents() == map);
        }
    }

    /// How many networks count as best.
    pub fn best_cache_len(&self) -> (n: usize)
        ensures
            n == self.best().len(),
    {
        self.best_subnets_cache.len()
    }

    /// How many networks are known.
    pub fn subnet_count(&self) -> (n: usize)
        ensures
            n == self.contents().len(),
    {
        map_len(&self.subnets)
    }

    /// All records, in no order that is known.
    pub fn get_all_subnets(&self) -> (records: Vec<SubnetQuality>)
        ensures
            records@.len() == self.contents().len(),
            exists|entries: Seq<(NetKey, SubnetQuality)>| #[trigger]
                lists(entries, self.contents()) && records@ == entries.map_values(
                    |e: (NetKey, SubnetQuality)| e.1,
                ),
    {
        let entries: Vec<(NetKey, SubnetQuality)> = map_entries(&self.subnets);
        let mut records: Vec<SubnetQuality> = Vec::new();
        let mut i: usize = 0;
        while i < entries.len()
            invariant
                i <= entries@.len(),
                records@.len() == i,
                forall|j: int| 0 <= j < i ==> #[trigger] records@[j] == entries@[j].1,
            decreases entries@.len() - i,
        {
            records.push(entries[i].1.clone());
            i = i + 1;
        }
        assert(records@ =~= entries@.map_values(|e: (NetKey, SubnetQuality)| e.1));
        assert(lists(entries@, self.contents()));
        records
    }

    /// Replaces all records by the given ones, of two with the same network the
    /// later, and determines the best networks. `top_k` gives how many of a
    /// number of networks count as best.
    pub fn load(&mut self, records: Vec<SubnetQuality>, top_k: impl Fn(usize) -> usize)
        requires
            old(self).wf(),
            forall|i: int| 0 <= i < records@.len() ==> (#[trigger] records@[i]).subnet.wf(),
            forall|n: usize| call_requires(top_k, (n,)),
        ensures
            final(self).wf(),
            final(self).contents() == recorded(records@),
            exists|total: usize, k: usize|
                total == recorded(records@).len() && #[trigger] call_ensures(top_k, (total,), k)
                    && are_best(
                    final(self).best(),
                    recorded(records@),
                    best_count(total as int, k as int),
                ),
    {
        map_clear(&mut self.subnets);
        assert(self.best() == old(self).best());
        self.update_subnets(&records);
        let total: usize = self.subnet_count();
        let k: usize = top_k(total);
        self.recalculate_best_subnets(k);
        assert(call_ensures(top_k, (total,), k));
    }

    /// Keeps the networks that are in one of the data centres asked for.
    pub fn filter_subnets_by_colo(&self, subnets: &Vec<IpNet>, target_colos: &[String]) -> (r: Vec<
        IpNet,
    >)
        ensures
            r@ == allowed(self.contents(), string_views(target_colos@), subnets@),
    {
        let ghost map: Map<NetKey, SubnetQuality> = self.contents();
        let ghost colos: Seq<Seq<char>> = string_views(target_colos@);
        let mut r: Vec<IpNet> = Vec::new();
        let mut i: usize = 0;
        assert(allowed(map, colos, subnets@.take(0)) =~= Seq::empty()) by {
            reveal(Seq::filter);
        }
        while i < subnets.len()
            invariant
                i <= subnets@.len(),
                map == self.contents(),
                colos == string_views(target_colos@),
                r@ == allowed(map, colos, subnets@.take(i as int)),
            decreases subnets@.len() - i,
        {
            let net: IpNet = subnets[i];
            proof {
                assert(subnets@.take(i + 1).drop_last() =~= subnets@.take(i as int));
                assert(subnets@.take(i + 1).last() == net);
                reveal(Seq::filter);
            }
            let keep: bool = target_colos.len() == 0 || match map_get(
                &self.subnets,
                &key_of(&net),
            ) {
                Some(record) => names_colo(target_colos, record.colo.as_str()),
                None => false,
            };
            if keep {
                r.push(net);
            }
            i = i + 1;
        }
        assert(subnets@.take(i as int) =~= subnets@);
        r
    }

    /// Draws the addresses to forward to: from the best networks that are in
    /// one of the data centres asked for, `n_subnets` at random, and of each of
    /// these `m_ips` addresses.
    pub fn get_target_ips(&self, target_colos: &[String], n_subnets: usize, m_ips: usize) -> (ips:
        Vec<IpAddr>)
        requires
            self.wf(),
        ensures
            exists|selected: Seq<IpNet>| #[trigger]
                is_selection(
                    selected,
                    allowed(self.contents(), string_views(target_colos@), self.best()),
                    n_subnets as int,
                ) && are_targets(ips@, selected, m_ips as int) && selected.no_duplicates(),
    {
        let ghost nets: Seq<IpNet> = allowed(
            self.contents(),
            string_views(target_colos@),
            self.best(),
        );
        let candidates: Vec<IpNet> = self.filter_subnets_by_colo(
            &self.best_subnets_cache,
            target_colos,
        );
        proof {
            assert forall|i: int|
                0 <= i < candidates@.len() implies (#[trigger] candidates@[i]).wf() by {
                assert(candidates@.contains(candidates@[i]));
                self.best().lemma_filter_contains_rev(
                    |net: IpNet|
                        colo_allowed(self.contents(), string_views(target_colos@), net),
                    candidates@[i],
                );
                let w = choose|w: int|
                    0 <= w < self.best().len() && self.best()[w] == candidates@[i];
                assert(self.best()[w].wf());
            }
        }
        if candidates.len() == 0 {
            let ips: Vec<IpAddr> = Vec::new();
            assert(is_selection(nets, nets, n_subnets as int));
            assert(are_targets(ips@, nets, m_ips as int));
            assert(nets.no_duplicates());
            return ips;
        }
        let mut rng: rand::rngs::ThreadRng = thread_rng();
        let selected: Vec<IpNet> = select_subnets(&candidates, n_subnets, &mut rng);
        proof {
            selection_is_of_different_networks(
                self,
                string_views(target_colos@),
                selected@,
                n_subnets as int,
            );
        }
        generate_ips_from_subnets(&selected, m_ips, &mut rng)
    }
}

proof fn lemma_filter_keeps_different(nets: Seq<IpNet>, pred: spec_fn(IpNet) -> bool)
    requires
        nets.no_duplicates(),
    ensures
        nets.filter(pred).no_duplicates(),
    decreases nets.len(),
{
    reveal(Seq::filter);
    if nets.len() > 0 {
        let init = nets.drop_last();
        let kept = init.filter(pred);
        lemma_filter_keeps_different(init, pred);
        assert forall|i: int| 0 <= i < kept.len() implies #[trigger] kept[i] != nets.last() by {
            assert(kept.contains(kept[i]));
            init.lemma_filter_contains_rev(pred, kept[i]);
            let w = choose|w: int| 0 <= w < init.len() && init[w] == kept[i];
            assert(nets[w] != nets[nets.len() - 1]);
        }
    }
}

/// The networks that addresses are drawn from are different.
pub proof fn selection_is_of_different_networks(
    manager: &IpManager,
    colos: Seq<Seq<char>>,
    selected: Seq<IpNet>,
    n: int,
)
    requires
        manager.wf(),
        is_selection(selected, allowed(manager.contents(), colos, manager.best()), n),
    ensures
        selected.no_duplicates(),
{
    let candidates = allowed(manager.contents(), colos, manager.best());
    lemma_filter_keeps_different(
        manager.best(),
        |net: IpNet| colo_allowed(manager.contents(), colos, net),
    );
    if candidates.len() > n {
        candidates.lemma_multiset_has_no_duplicates();
        assert forall|net: IpNet| #[trigger]
            selected.to_multiset().contains(net) implies selected.to_multiset().count(net)
            == 1 by {
            assert(selected.to_multiset().count(net) <= candidates.to_multiset().count(net));
            assert(candidates.to_multiset().contains(net));
        }
        selected.lemma_multiset_has_no_duplicates_conv();
    }
}

/// How many of `total` networks count as best when `k` are wanted.
pub open spec fn best_count(total: int, k: int) -> int {
    if total == 0 {
        0
    } else if k < 1 {
        1
    } else if k > total {
        total
    } else {
        k
    }
}

/// Keeps the number of best networks between one and the number there is.
pub fn calculate_top_k(total: usize, k: usize) -> (count: usize)
    requires
        total >= 1,
    ensures
        count == best_count(total as int, k as int),
{
    if k < 1 {
        1
    } else if k > total {
        total
    } else {
        k
    }
}

/// What a map holds after some records came in, one after another, each in
/// place of what was recorded of its network.
pub open spec fn with_records(
    map: Map<NetKey, SubnetQuality>,
    records: Seq<SubnetQuality>,
) -> Map<NetKey, SubnetQuality>
    decreases records.len(),
{
    if records.len() == 0 {
        map
    } else {
        with_records(map, records.drop_last()).insert(
            net_key(records.last().subnet),
            records.last(),
        )
    }
}

/// The records of a list, by network, of two with the same network the later.
pub open spec fn recorded(records: Seq<SubnetQuality>) -> Map<NetKey, SubnetQuality> {
    with_records(no_records(), records)
}

/// Whether a data centre is one of those asked for.
fn names_colo(colos: &[String], colo: &str) -> (b: bool)
    ensures
        b == string_views(colos@).contains(colo@),
{
    let mut i: usize = 0;
    while i < colos.len()
        invariant
            i <= colos@.len(),
            forall|j: int| 0 <= j < i ==> (#[trigger] colos@[j])@ != colo@,
        decreases colos@.len() - i,
    {
        if same_str(colos[i].as_str(), colo) {
            assert(string_views(colos@)[i as int] == colo@);
            return true;
        }
        i = i + 1;
    }
    assert forall|j: int| 0 <= j < string_views(colos@).len() implies string_views(colos@)[j]
        != colo@ by {
        assert(colos@[j]@ != colo@);
    }
    false
}

/// Chooses `n` networks at random, or all where there are no more.
pub fn select_subnets(
    candidates: &Vec<IpNet>,
    n: usize,
    rng: &mut rand::rngs::ThreadRng,
) -> (r: Vec<IpNet>)
    requires
        forall|i: int| 0 <= i < candidates@.len() ==> (#[trigger] candidates@[i]).wf(),
    ensures
        is_selection(r@, candidates@, n as int),
        forall|i: int| 0 <= i < r@.len() ==> (#[trigger] r@[i]).wf(),
{
    if candidates.len() <= n {
        return candidates.clone();
    }
    let r: Vec<IpNet> = choose_multiple(rng, candidates, n);
    proof {
        broadcast use vstd::seq_lib::group_to_multiset_ensures;

        r@.to_multiset_ensures();
        candidates@.to_multiset_ensures();
        assert forall|i: int| 0 <= i < r@.len() implies (#[trigger] r@[i]).wf() by {
            assert(r@.contains(r@[i]));
            assert(r@.to_multiset().count(r@[i]) > 0);
            assert(candidates@.to_multiset().count(r@[i]) > 0);
            assert(candidates@.contains(r@[i]));
            let w = choose|w: int| 0 <= w < candidates@.len() && candidates@[w] == r@[i];
            assert(candidates@[w].wf());
        }
    }
    r
}

/// Draws `m_ips` addresses of each network.
pub fn generate_ips_from_subnets(
    subnets: &Vec<IpNet>,
    m_ips: usize,
    rng: &mut rand::rngs::ThreadRng,
) -> (ips: Vec<IpAddr>)
    requires
        forall|i: int| 0 <= i < subnets@.len() ==> (#[trigger] subnets@[i]).wf(),
    ensures
        are_targets(ips@, subnets@, m_ips as int),
{
    let mut ips: Vec<IpAddr> = Vec::new();
    let mut i: usize = 0;
    let ghost m: int = m_ips as int;
    assert(0 * m == 0);
    while i < subnets.len()
        invariant
            i <= subnets@.len(),
            m == m_ips,
            forall|j: int| 0 <= j < subnets@.len() ==> (#[trigger] subnets@[j]).wf(),
            ips@.len() == i * m,
            forall|a: int, b: int|
                0 <= a < i && 0 <= b < m ==> is_host_of(
                    ips@[#[trigger] target_place(a, b, m)],
                    subnets@[a],
                ),
        decreases subnets@.len() - i,
    {
        let ghost done: Seq<IpAddr> = ips@;
        let mut j: usize = 0;
        while j < m_ips
            invariant
                j <= m_ips,
                m == m_ips,
                i < subnets@.len(),
                subnets@[i as int].wf(),
                done.len() == i * m,
                ips@.len() == done.len() + j,
                ips@.take(done.len() as int) =~= done,
                forall|b: int|
                    0 <= b < j ==> is_host_of(#[trigger] ips@[done.len() + b], subnets@[i as int]),
            decreases m_ips - j,
        {
            ips.push(generate_random_ip_in_subnet(&subnets[i], rng));
            j = j + 1;
        }
        proof {
            assert((i + 1) * m == i * m + m) by (nonlinear_arith);
            assert forall|a: int, b: int| 0 <= a < i + 1 && 0 <= b < m implies is_host_of(
                ips@[#[trigger] target_place(a, b, m)],
                subnets@[a],
            ) by {
                if a < i {
                    assert(0 <= a * m && a * m + b < i * m) by (nonlinear_arith)
                        requires
                            0 <= a < i,
                            0 <= b < m,
                    ;
                    assert(ips@.take(done.len() as int)[target_place(a, b, m)] == done[target_place(
                        a,
                        b,
                        m,
                    )]);
                } else {
                    assert(ips@[done.len() + b] == ips@[target_place(a, b, m)]);
                }
            }
        }
        i = i + 1;
    }
    ips
}

/// How the number of permits for open files is brought to a limit.
#[derive(Clone, Copy, Debug, PartialEq, Eq, Structural)]
pub enum PermitChange {
    /// Add this many permits.
    Add(usize),
    /// Take this many permits away, if as many are free.
    Forget(u32),
    Keep,
}

/// The permits that a manager starts with.
pub const INITIAL_PERMITS: usize = 1024;

/// After a cleanup there are no more records than allowed, each is one that was
/// there before, and none is too old.
pub proof fn cleanup_bounds(
    before: Map<NetKey, SubnetQuality>,
    after: Map<NetKey, SubnetQuality>,
    now: int,
    ttl_secs: u64,
    max_subnets: nat,
)
    requires
        is_eviction(unexpired(before, now, ttl_secs), after, max_subnets as int),
    ensures
        after.len() <= max_subnets,
        after.submap_of(before),
        ttl_secs != 0 ==> forall|key: NetKey| #[trigger]
            after.contains_key(key) ==> after[key].last_updated >= cutoff(now, ttl_secs),
{
    assert forall|key: NetKey| #[trigger] after.contains_key(key) implies before.contains_key(key)
        && before[key] == after[key] && (ttl_secs != 0 ==> after[key].last_updated >= cutoff(
        now,
        ttl_secs,
    )) by {
        assert(unexpired(before, now, ttl_secs).dom().contains(key));
    }
    assert(after.dom().subset_of(before.dom()));
}

/// A cleanup leaves alone what is young enough and not too many: a second
/// cleanup at the same moment drops nothing.
pub proof fn cleanup_settles(
    before: Map<NetKey, SubnetQuality>,
    after: Map<NetKey, SubnetQuality>,
    now: int,
    ttl_secs: u64,
    max_subnets: nat,
)
    requires
        is_eviction(unexpired(before, now, ttl_secs), after, max_subnets as int),
    ensures
        unexpired(after, now, ttl_secs) == after,
        after.len() <= max_subnets,
{
    cleanup_bounds(before, after, now, ttl_secs, max_subnets);
    assert(unexpired(after, now, ttl_secs) =~= after);
}

/// Loading what was listed gives back what is known: the records of a list of
/// all entries are the entries.
pub proof fn listing_then_loading(
    entries: Seq<(NetKey, SubnetQuality)>,
    map: Map<NetKey, SubnetQuality>,
)
    requires
        lists(entries, map),
        forall|key: NetKey| #[trigger]
            map.contains_key(key) ==> key == net_key(map[key].subnet),
    ensures
        recorded(entries.map_values(|e: (NetKey, SubnetQuality)| e.1)) == map,
{
    let records = entries.map_values(|e: (NetKey, SubnetQuality)| e.1);
    lemma_recorded_prefix(entries, map, entries.len() as int);
    assert(records.take(entries.len() as int) =~= records);
    let loaded = recorded(records);
    assert forall|key: NetKey| #[trigger] loaded.contains_key(key) <==> map.contains_key(key) by {
        if loaded.contains_key(key) {
            let i = choose|i: int| 0 <= i < entries.len() && (#[trigger] entries[i]).0 == key;
            assert(map.contains_key(entries[i].0));
        }
    }
    assert(loaded =~= map);
}

proof fn lemma_recorded_prefix(
    entries: Seq<(NetKey, SubnetQuality)>,
    map: Map<NetKey, SubnetQuality>,
    n: int,
)
    requires
        lists(entries, map),
        forall|key: NetKey| #[trigger]
            map.contains_key(key) ==> key == net_key(map[key].subnet),
        0 <= n <= entries.len(),
    ensures
        ({
            let records = entries.map_values(|e: (NetKey, SubnetQuality)| e.1);
            let loaded = recorded(records.take(n));
            &&& forall|key: NetKey| #[trigger]
                loaded.contains_key(key) <==> exists|i: int|
                    0 <= i < n && (#[trigger] entries[i]).0 == key
            &&& forall|key: NetKey| #[trigger] loaded.contains_key(key) ==> loaded[key] == map[key]
        }),
    decreases n,
{
    let records = entries.map_values(|e: (NetKey, SubnetQuality)| e.1);
    if n > 0 {
        lemma_recorded_prefix(entries, map, n - 1);
        let earlier = recorded(records.take(n - 1));
        let loaded = recorded(records.take(n));
        assert(records.take(n).drop_last() =~= records.take(n - 1));
        assert(records.take(n).last() == entries[n - 1].1);
        let own = entries[n - 1].0;
        assert(map.contains_key(own) && map[own] == entries[n - 1].1);
        assert(loaded == earlier.insert(own, entries[n - 1].1));
        assert forall|key: NetKey| #[trigger] loaded.contains_key(key) <==> exists|i: int|
            0 <= i < n && (#[trigger] entries[i]).0 == key by {
            if key == own {
                assert(entries[n - 1].0 == key);
            } else {
                assert(loaded.contains_key(key) <==> earlier.contains_key(key));
                if exists|i: int| 0 <= i < n && (#[trigger] entries[i]).0 == key {
                    let i = choose|i: int| 0 <= i < n && (#[trigger] entries[i]).0 == key;
                    assert(i < n - 1);
                }
            }
        }
    }
}

/// With a lifetime of zero no record is too old. With another, a record stays
/// if and only if it is at most that many seconds old, and stays as it is. A
/// lifetime that has the sign bit counts as the negative number of these bits.
pub proof fn expiry_goes_by_age(
    map: Map<NetKey, SubnetQuality>,
    now: int,
    ttl_secs: u64,
    key: NetKey,
)
    ensures
        ttl_secs == 0 ==> unexpired(map, now, ttl_secs) == map,
        0 < ttl_secs <= i64::MAX ==> (unexpired(map, now, ttl_secs).contains_key(key)
            <==> map.contains_key(key) && now - map[key].last_updated <= ttl_secs * 1_000_000_000),
        ttl_secs > i64::MAX ==> (unexpired(map, now, ttl_secs).contains_key(key)
            <==> map.contains_key(key) && now - map[key].last_updated <= (ttl_secs
            - 0x1_0000_0000_0000_0000) * 1_000_000_000),
        unexpired(map, now, ttl_secs).contains_key(key) ==> unexpired(map, now, ttl_secs)[key]
            == map[key],
{
}

/// Eviction takes no more than it must, and takes the worst: what goes has no
/// higher a score than what stays, and at the same score it is no younger.
pub proof fn eviction_takes_the_worst(
    before: Map<NetKey, SubnetQuality>,
    after: Map<NetKey, SubnetQuality>,
    max: nat,
    gone: NetKey,
    kept: NetKey,
)
    requires
        is_eviction(before, after, max as int),
        before.dom().finite(),
        before.contains_key(gone),
        !after.contains_key(gone),
        after.contains_key(kept),
    ensures
        before.len() > max,
        after.len() == max,
        before.contains_key(kept) && after[kept] == before[kept],
        before[gone].score.total_rank() <= before[kept].score.total_rank(),
        before[gone].score.total_rank() == before[kept].score.total_rank()
            ==> before[gone].last_updated <= before[kept].last_updated,
{
    assert(before.contains_key(kept));
    assert(evicted_first(before[gone], before[kept]));
    if before.len() <= max {
        lemma_same_size_is_whole(before, after);
    }
}

/// Nothing is evicted where there are not too many.
pub proof fn eviction_spares_few(
    before: Map<NetKey, SubnetQuality>,
    after: Map<NetKey, SubnetQuality>,
    max: nat,
)
    requires
        is_eviction(before, after, max as int),
        before.dom().finite(),
        before.len() <= max,
    ensures
        after == before,
{
    lemma_same_size_is_whole(before, after);
    assert(after =~= before);
}

/// A part of a map that has as many entries as the map has all of them.
proof fn lemma_same_size_is_whole(
    before: Map<NetKey, SubnetQuality>,
    after: Map<NetKey, SubnetQuality>,
)
    requires
        after.submap_of(before),
        after.len() == before.len(),
        before.dom().finite(),
    ensures
        after.dom() == before.dom(),
{
    assert(after.dom().subset_of(before.dom())) by {
        assert forall|key: NetKey| #[trigger] after.dom().contains(key) implies before.contains_key(
            key,
        ) by {
            assert(after.contains_key(key));
        }
    }
    vstd::set_lib::lemma_subset_equality(after.dom(), before.dom());
}

/// The best networks are in order of their scores, and no network that is not
/// among them has a higher score than one that is.
pub proof fn best_have_highest_scores(
    best: Seq<IpNet>,
    map: Map<NetKey, SubnetQuality>,
    k: nat,
    i: int,
    j: int,
    key: NetKey,
)
    requires
        are_best(best, map, k as int),
        0 <= i < j < best.len(),
        map.contains_key(key),
        forall|a: int| 0 <= a < best.len() ==> net_key(#[trigger] best[a]) != key,
    ensures
        best.len() == k,
        best[i] != best[j],
        map.contains_key(net_key(best[i])) && map.contains_key(net_key(best[j])),
        map[net_key(best[i])].score.total_rank() >= map[net_key(best[j])].score.total_rank(),
        map[net_key(best[j])].score.total_rank() >= map[key].score.total_rank(),
{
}

/// As many networks count as best as are wanted, but at least one and no more
/// than there are.
pub proof fn best_are_counted(total: nat, k: nat)
    ensures
        best_count(total as int, k as int) <= total,
        total > 0 ==> best_count(total as int, k as int) >= 1,
        1 <= k <= total ==> best_count(total as int, k as int) == k,
        k > total ==> best_count(total as int, k as int) == total,
        k == 0 && total > 0 ==> best_count(total as int, k as int) == 1,
{
}

/// A network may be used if and only if it was asked about and either no data
/// centre was asked for, or the record of the network names one that was.
pub proof fn data_centres_decide(
    map: Map<NetKey, SubnetQuality>,
    colos: Seq<Seq<char>>,
    nets: Seq<IpNet>,
    net: IpNet,
)
    ensures
        allowed(map, colos, nets).contains(net) <==> nets.contains(net) && (colos.len() == 0 || (
        map.contains_key(net_key(net)) && exists|i: int|
            0 <= i < colos.len() && #[trigger] colos[i] == map[net_key(net)].colo@)),
        colos.len() == 0 ==> allowed(map, colos, nets) == nets,
    decreases nets.len(),
{
    let pred = |n: IpNet| colo_allowed(map, colos, n);
    reveal(Seq::filter);
    if nets.len() > 0 {
        data_centres_decide(map, colos, nets.drop_last(), net);
        let earlier: Seq<IpNet> = nets.drop_last().filter(pred);
        let last: IpNet = nets.last();
        assert(nets =~= nets.drop_last().push(last));
        if nets.contains(net) && net != last {
            let i = choose|i: int| 0 <= i < nets.len() && nets[i] == net;
            assert(nets.drop_last()[i] == net);
        }
        if nets.drop_last().contains(net) {
            let i = choose|i: int| 0 <= i < nets.drop_last().len() && nets.drop_last()[i] == net;
            assert(nets[i] == net);
        }
        assert(nets[nets.len() - 1] == last);
        if pred(last) {
            assert(earlier.push(last)[earlier.len() as int] == last);
            if earlier.contains(net) {
                let i = choose|i: int| 0 <= i < earlier.len() && earlier[i] == net;
                assert(earlier.push(last)[i] == net);
            }
            if earlier.push(last).contains(net) && net != last {
                let i = choose|i: int|
                    0 <= i < earlier.push(last).len() && earlier.push(last)[i] == net;
                assert(earlier[i] == net);
            }
        }
        if colos.len() == 0 {
            assert(allowed(map, colos, nets) =~= nets);
        }
    } else {
        assert(nets.filter(pred) =~= nets);
    }
}

/// A choice has as many networks as were wanted, or all there are, and each is
/// a candidate.
pub proof fn selection_is_of_candidates(
    selected: Seq<IpNet>,
    candidates: Seq<IpNet>,
    n: nat,
    i: int,
)
    requires
        is_selection(selected, candidates, n as int),
        0 <= i < selected.len(),
    ensures
        selected.len() <= n || selected == candidates,
        candidates.len() <= n ==> selected == candidates,
        candidates.len() > n ==> selected.len() == n,
        exists|j: int| 0 <= j < candidates.len() && #[trigger] candidates[j] == selected[i],
{
    if candidates.len() > n {
        broadcast use vstd::seq_lib::group_to_multiset_ensures;

        assert(selected.contains(selected[i]));
        assert(selected.to_multiset().contains(selected[i]));
        assert(candidates.to_multiset().contains(selected[i]));
        assert(candidates.contains(selected[i]));
    } else {
        assert(candidates[i] == selected[i]);
    }
}

/// The targets are the hosts of the networks in turn, as many of each: the
/// target at a place is a host of the network that the place falls to.
pub proof fn targets_come_in_turn(ips: Seq<IpAddr>, nets: Seq<IpNet>, m: nat, place: int)
    requires
        are_targets(ips, nets, m as int),
        0 <= place < ips.len(),
    ensures
        m > 0,
        0 <= place / (m as int) < nets.len(),
        is_host_of(ips[place], nets[place / (m as int)]),
{
    assert(m > 0) by (nonlinear_arith)
        requires
            0 <= place < nets.len() * m,
    ;
    let i: int = place / (m as int);
    let j: int = place % (m as int);
    assert(place == i * m + j && 0 <= j < m && 0 <= i < nets.len()) by (nonlinear_arith)
        requires
            m > 0,
            0 <= place < nets.len() * m,
            i == place / (m as int),
            j == place % (m as int),
    ;
    assert(target_place(i, j, m as int) == place);
}

/// The last record of a network is what is known of it.
pub proof fn last_record_counts(
    map: Map<NetKey, SubnetQuality>,
    records: Seq<SubnetQuality>,
    i: int,
)
    requires
        0 <= i < records.len(),
        forall|j: int|
            i < j < records.len() ==> (#[trigger] records[j]).subnet != records[i].subnet,
    ensures
        with_records(map, records).contains_key(net_key(records[i].subnet)),
        with_records(map, records)[net_key(records[i].subnet)] == records[i],
    decreases records.len(),
{
    if i < records.len() - 1 {
        let shorter: Seq<SubnetQuality> = records.drop_last();
        assert(shorter[i] == records[i]);
        assert forall|j: int| i < j < shorter.len() implies (#[trigger] shorter[j]).subnet
            != shorter[i].subnet by {
            assert(shorter[j] == records[j]);
        }
        last_record_counts(map, shorter, i);
        assert(records[records.len() - 1].subnet != records[i].subnet);
        if net_key(records.last().subnet) == net_key(records[i].subnet) {
            net_key_separates(records.last().subnet, records[i].subnet);
        }
    }
}

/// Records of other networks leave what is known of a network alone.
pub proof fn other_records_change_nothing(
    map: Map<NetKey, SubnetQuality>,
    records: Seq<SubnetQuality>,
    key: NetKey,
)
    requires
        forall|j: int| 0 <= j < records.len() ==> net_key((#[trigger] records[j]).subnet) != key,
    ensures
        with_records(map, records).contains_key(key) <==> map.contains_key(key),
        map.contains_key(key) ==> with_records(map, records)[key] == map[key],
    decreases records.len(),
{
    if records.len() > 0 {
        let shorter: Seq<SubnetQuality> = records.drop_last();
        assert forall|j: int| 0 <= j < shorter.len() implies net_key((#[trigger] shorter[j]).subnet)
            != key by {
            assert(shorter[j] == records[j]);
        }
        other_records_change_nothing(map, shorter, key);
        assert(net_key(records[records.len() - 1].subnet) != key);
    }
}

} // verus!
