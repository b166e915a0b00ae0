//! What the status pages show.
use crate::metrics::{ForwardMetrics, ForwardMetricsSnapshot};
use crate::model::SubnetQuality;
use crate::pool::PoolStatsSnapshot;
use crate::scanner::promise_keys;
use crate::sort::{is_ranking, rank, ranking_ascends, ranking_reaches_all};
use crate::state::{lists, IpManager, NetKey};
use vstd::prelude::*;

verus! {

/// The health page.
#[derive(Debug)]
pub struct HealthResponse {
    pub status: String,
    pub version: String,
    pub subnet_count: usize,
}

/// The page of all networks.
#[derive(Debug)]
pub struct StatusResponse {
    pub total_subnets: usize,
    pub subnets: Vec<SubnetQuality>,
}

/// The page for looking into the forwarder.
#[derive(Debug)]
pub struct DebugResponse {
    pub subnet_count: usize,
    pub best_subnets: usize,
    pub pool: Option<PoolStatsSnapshot>,
    pub forward: ForwardMetricsSnapshot,
}

/// Whether a list has the same records, best first, equals in the order they
/// came.
pub open spec fn is_by_score(sorted: Seq<SubnetQuality>, records: Seq<SubnetQuality>) -> bool {
    exists|order: Seq<usize>| #[trigger]
        is_ranking(order, promise_keys(records)) && sorted == Seq::new(
            records.len(),
            |i: int| records[order[i] as int],
        )
}

/// Sorts records by score, best first.
pub fn sort_by_score(records: &Vec<SubnetQuality>) -> (sorted: Vec<SubnetQuality>)
    ensures
        is_by_score(sorted@, records@),
        sorted@.len() == records@.len(),
        forall|a: int, b: int|
            0 <= a < b < sorted@.len() ==> (#[trigger] sorted@[a]).score.total_rank() >= (
            #[trigger] sorted@[b]).score.total_rank(),
{
    let mut keys: Vec<(i64, i128)> = Vec::new();
    let mut i: usize = 0;
    while i < records.len()
        invariant
            i <= records@.len(),
            keys@ =~= promise_keys(records@).take(i as int),
        decreases records@.len() - i,
    {
        let key: i64 = records[i].score.total_key();
        keys.push((-key, 0));
        i = i + 1;
    }
    assert(keys@ =~= promise_keys(records@));
    let order: Vec<usize> = rank(&keys);
    let mut sorted: Vec<SubnetQuality> = Vec::new();
    let mut n: usize = 0;
    while n < order.len()
        invariant
            n <= order@.len() == records@.len(),
            is_ranking(order@, promise_keys(records@)),
            sorted@.len() == n,
            forall|j: int| 0 <= j < n ==> #[trigger] sorted@[j] == records@[order@[j] as int],
        decreases order@.len() - n,
    {
        assert(order@[n as int] < promise_keys(records@).len());
        sorted.push(records[order[n]].clone());
        n = n + 1;
    }
    proof {
        assert(sorted@ =~= Seq::new(records@.len(), |j: int| records@[order@[j] as int]));
        assert forall|a: int, b: int| 0 <= a < b < sorted@.len() implies (
        #[trigger] sorted@[a]).score.total_rank() >= (
        #[trigger] sorted@[b]).score.total_rank() by {
            let keys = promise_keys(records@);
            assert(crate::sort::key_at_most(keys[order@[a] as int], keys[order@[b] as int]));
        }
    }
    sorted
}

/// The health page of a forwarder that runs.
pub fn health_check(manager: &IpManager, version: &str) -> (r: HealthResponse)
    ensures
        r.status@ == "healthy"@,
        r.version@ == version@,
        r.subnet_count == manager.contents().len(),
{
    HealthResponse {
        status: "healthy".to_string(),
        version: version.to_string(),
        subnet_count: manager.subnet_count(),
    }
}

/// Whether a list has all records of a manager, best first.
pub open spec fn shows_all(shown: Seq<SubnetQuality>, manager: &IpManager) -> bool {
    exists|entries: Seq<(NetKey, SubnetQuality)>| #[trigger]
        lists(entries, manager.contents()) && is_by_score(
            shown,
            entries.map_values(|e: (NetKey, SubnetQuality)| e.1),
        )
}

/// All networks, best first.
pub fn get_status(manager: &IpManager) -> (shown: Vec<SubnetQuality>)
    ensures
        shows_all(shown@, manager),
        shown@.len() == manager.contents().len(),
        forall|a: int, b: int|
            0 <= a < b < shown@.len() ==> (#[trigger] shown@[a]).score.total_rank() >= (
            #[trigger] shown@[b]).score.total_rank(),
{
    let records: Vec<SubnetQuality> = manager.get_all_subnets();
    sort_by_score(&records)
}

/// All networks, best first, with their number.
pub fn get_subnets_api(manager: &IpManager) -> (r: StatusResponse)
    ensures
        r.total_subnets == r.subnets@.len(),
        r.total_subnets == manager.contents().len(),
        shows_all(r.subnets@, manager),
{
    let subnets: Vec<SubnetQuality> = get_status(manager);
    StatusResponse { total_subnets: subnets.len(), subnets }
}

/// The status code of a page that is there.
pub const STATUS_OK: u16 = 200;

/// The status code of a page that is not there.
pub const STATUS_NOT_FOUND: u16 = 404;

/// The status code of the page of the pool.
pub open spec fn pool_status(pool: Option<PoolStatsSnapshot>) -> u16 {
    if pool is Some {
        STATUS_OK
    } else {
        STATUS_NOT_FOUND
    }
}

/// The page of the pool, which is there where the pool is on.
pub fn get_pool_stats(pool: Option<PoolStatsSnapshot>) -> (r: (u16, Option<PoolStatsSnapshot>))
    ensures
        r.0 == pool_status(pool),
        r.1 == pool,
{
    match pool {
        Some(snapshot) => (STATUS_OK, Some(snapshot)),
        None => (STATUS_NOT_FOUND, None),
    }
}

/// The page of the counters.
pub fn get_stats(metrics: &ForwardMetrics) -> (s: ForwardMetricsSnapshot)
    ensures
        s == metrics@,
{
    metrics.snapshot()
}

/// The page for looking into the forwarder.
pub fn get_debug(
    manager: &IpManager,
    pool: Option<PoolStatsSnapshot>,
    metrics: &ForwardMetrics,
) -> (r: DebugResponse)
    ensures
        r.subnet_count == manager.contents().len(),
        r.best_subnets == manager.best().len(),
        r.pool == pool,
        r.forward == metrics@,
{
    DebugResponse {
        subnet_count: manager.subnet_count(),
        best_subnets: manager.best_cache_len(),
        pool,
        forward: metrics.snapshot(),
    }
}

/// Whether `places` are those of all records, by descending score, of equals the
/// earlier first.
pub open spec fn are_places_by_score(places: Seq<int>, records: Seq<SubnetQuality>) -> bool {
    &&& places.len() == records.len()
    &&& forall|i: int| 0 <= i < places.len() ==> 0 <= #[trigger] places[i] < records.len()
    &&& forall|i: int, j: int|
        0 <= i < j < places.len() ==> {
            let (a, b) = (#[trigger] places[i], #[trigger] places[j]);
            ||| records[a].score.total_rank() > records[b].score.total_rank()
            ||| records[a].score.total_rank() == records[b].score.total_rank() && a < b
        }
}

/// What is shown are all records, the better first.
pub proof fn better_records_come_first(sorted: Seq<SubnetQuality>, records: Seq<SubnetQuality>)
    requires
        is_by_score(sorted, records),
    ensures
        exists|places: Seq<int>| #[trigger]
            are_places_by_score(places, records) && sorted == places.map_values(
                |p: int| records[p],
            ),
{
    let keys: Seq<(i64, i128)> = promise_keys(records);
    let order = choose|order: Seq<usize>| #[trigger]
        is_ranking(order, keys) && sorted == Seq::new(
            records.len(),
            |i: int| records[order[i] as int],
        );
    let places: Seq<int> = Seq::new(order.len(), |i: int| order[i] as int);
    assert forall|i: int| 0 <= i < places.len() implies 0 <= #[trigger] places[i]
        < records.len() by {
        assert(order[i] < keys.len());
    }
    assert forall|i: int, j: int| 0 <= i < j < places.len() implies {
        let (a, b) = (#[trigger] places[i], #[trigger] places[j]);
        ||| records[a].score.total_rank() > records[b].score.total_rank()
        ||| records[a].score.total_rank() == records[b].score.total_rank() && a < b
    } by {
        ranking_ascends(order, keys, i, j);
    }
    assert(are_places_by_score(places, records));
    assert(sorted =~= places.map_values(|p: int| records[p]));
}

/// The page of the pool is there if and only if the pool is on.
pub proof fn pool_page_needs_a_pool(pool: Option<PoolStatsSnapshot>)
    ensures
        pool is Some ==> pool_status(pool) == 200,
        pool is None ==> pool_status(pool) == 404,
{
}

/// The pages show every record there is, and nothing else, the better first.
pub proof fn pages_show_all_records(
    shown: Seq<SubnetQuality>,
    manager: &IpManager,
    key: NetKey,
    i: int,
    j: int,
)
    requires
        shows_all(shown, manager),
        manager.contents().contains_key(key),
        0 <= i <= j < shown.len(),
    ensures
        shown.len() == manager.contents().len(),
        exists|p: int| 0 <= p < shown.len() && #[trigger] shown[p] == manager.contents()[key],
        exists|k: NetKey| #[trigger]
            manager.contents().contains_key(k) && manager.contents()[k] == shown[i],
        shown[i].score.total_rank() >= shown[j].score.total_rank(),
{
    let entries = choose|entries: Seq<(NetKey, SubnetQuality)>| #[trigger]
        lists(entries, manager.contents()) && is_by_score(
            shown,
            entries.map_values(|e: (NetKey, SubnetQuality)| e.1),
        );
    let records: Seq<SubnetQuality> = entries.map_values(|e: (NetKey, SubnetQuality)| e.1);
    let keys: Seq<(i64, i128)> = promise_keys(records);
    let order = choose|order: Seq<usize>| #[trigger]
        is_ranking(order, keys) && shown == Seq::new(
            records.len(),
            |a: int| records[order[a] as int],
        );
    let e = choose|e: int| 0 <= e < entries.len() && (#[trigger] entries[e]).0 == key;
    ranking_reaches_all(order, keys, e);
    let p = choose|p: int| 0 <= p < order.len() && #[trigger] order[p] == e;
    assert(shown[p] == records[e]);
    assert(order[i] < keys.len());
    assert(shown[i] == entries[order[i] as int].1);
    assert(manager.contents().contains_key(entries[order[i] as int].0));
    if i < j {
        ranking_ascends(order, keys, i, j);
    }
}

} // verus!
