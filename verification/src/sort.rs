//! Sorting by integer keys.
use rayon::slice::ParallelSliceMut;
use vstd::prelude::*;

verus! {

/// A key, and the place it came from.
pub type Placed = (i64, i128, usize);

/// The order of keys: by the first part, then by the second.
pub open spec fn key_at_most(a: (i64, i128), b: (i64, i128)) -> bool {
    a.0 < b.0 || (a.0 == b.0 && a.1 <= b.1)
}

/// The order of tuples: part by part, the first that differs decides.
pub open spec fn placed_at_most(a: Placed, b: Placed) -> bool {
    a.0 < b.0 || (a.0 == b.0 && (a.1 < b.1 || (a.1 == b.1 && a.2 <= b.2)))
}

/// Whether `order` lists the places of all keys by ascending key, equal keys
/// in the order they came.
pub open spec fn is_ranking(order: Seq<usize>, keys: Seq<(i64, i128)>) -> bool {
    &&& order.len() == keys.len()
    &&& forall|a: int| 0 <= a < order.len() ==> #[trigger] order[a] < keys.len()
    &&& forall|a: int, b: int|
        0 <= a < b < order.len() ==> #[trigger] order[a] != #[trigger] order[b]
    &&& forall|a: int, b: int|
        0 <= a < b < order.len() ==> key_at_most(
            keys[#[trigger] order[a] as int],
            keys[#[trigger] order[b] as int],
        )
    &&& forall|a: int, b: int|
        0 <= a < b < order.len() && keys[#[trigger] order[a] as int]
            == keys[#[trigger] order[b] as int] ==> order[a] < order[b]
}

/// Calls `rayon::slice::ParallelSliceMut::par_sort`, and claims that the items
/// after it are the items before it, each at most the next in the order of
/// tuples of integers.
#[verifier::external_body]
fn par_sort(items: &mut Vec<Placed>)
    ensures
        final(items)@.to_multiset() == old(items)@.to_multiset(),
        forall|a: int, b: int|
            0 <= a < b < final(items)@.len() ==> placed_at_most(
                #[trigger] final(items)@[a],
                #[trigger] final(items)@[b],
            ),
{
    items.par_sort()
}

/// Lists the places of the keys by ascending key, equal keys in the order they
/// came.
pub fn rank(keys: &Vec<(i64, i128)>) -> (order: Vec<usize>)
    ensures
        is_ranking(order@, keys@),
{
    broadcast use vstd::seq_lib::group_to_multiset_ensures;

    let mut items: Vec<Placed> = Vec::new();
    let mut i: usize = 0;
    while i < keys.len()
        invariant
            i <= keys@.len(),
            items@.len() == i,
            forall|j: int|
                0 <= j < i ==> (#[trigger] items@[j]) == (keys@[j].0, keys@[j].1, j as usize),
        decreases keys@.len() - i,
    {
        items.push((keys[i].0, keys[i].1, i));
        i = i + 1;
    }
    let ghost placed: Seq<Placed> = items@;
    proof {
        assert(placed.no_duplicates());
        placed.lemma_multiset_has_no_duplicates();
    }
    par_sort(&mut items);
    proof {
        placed.to_multiset_ensures();
        items@.to_multiset_ensures();
        items@.lemma_multiset_has_no_duplicates_conv();
        assert forall|a: int| 0 <= a < items@.len() implies (#[trigger] items@[a]).2 < keys@.len()
            && keys@[items@[a].2 as int] == (items@[a].0, items@[a].1) by {
            assert(items@.contains(items@[a]));
            assert(placed.to_multiset().contains(items@[a]));
            assert(placed.contains(items@[a]));
        }
        assert forall|a: int, b: int| 0 <= a < b < items@.len() implies (#[trigger] items@[a]).2
            != (#[trigger] items@[b]).2 by {
            if items@[a].2 == items@[b].2 {
                assert(keys@[items@[a].2 as int] == (items@[a].0, items@[a].1));
                assert(keys@[items@[b].2 as int] == (items@[b].0, items@[b].1));
                assert(items@[a] == items@[b]);
            }
        }
    }
    let ghost sorted: Seq<Placed> = items@;
    let mut order: Vec<usize> = Vec::new();
    let mut k: usize = 0;
    while k < items.len()
        invariant
            k <= items@.len(),
            items@ == sorted,
            order@.len() == k,
            forall|j: int| 0 <= j < k ==> #[trigger] order@[j] == sorted[j].2,
        decreases items@.len() - k,
    {
        order.push(items[k].2);
        k = k + 1;
    }
    proof {
        assert forall|a: int, b: int| 0 <= a < b < order@.len() implies key_at_most(
            keys@[#[trigger] order@[a] as int],
            keys@[#[trigger] order@[b] as int],
        ) && (keys@[order@[a] as int] == keys@[order@[b] as int] ==> order@[a] < order@[b]) by {
            assert(placed_at_most(sorted[a], sorted[b]));
            assert(sorted[a].2 != sorted[b].2);
            assert(keys@[sorted[a].2 as int] == (sorted[a].0, sorted[a].1));
            assert(keys@[sorted[b].2 as int] == (sorted[b].0, sorted[b].1));
        }
    }
    order
}

/// A ranking leaves out no place.
pub proof fn ranking_reaches_all(order: Seq<usize>, keys: Seq<(i64, i128)>, place: int)
    requires
        is_ranking(order, keys),
        0 <= place < keys.len(),
    ensures
        exists|a: int| 0 <= a < order.len() && #[trigger] order[a] == place,
{
    let places: Seq<int> = order.map_values(|p: usize| p as int);
    assert(places.no_duplicates()) by {
        assert forall|a: int, b: int|
            0 <= a < places.len() && 0 <= b < places.len() && a != b implies places[a]
            != places[b] by {
            if a < b {
                assert(order[a] != order[b]);
            } else {
                assert(order[b] != order[a]);
            }
        }
    }
    places.unique_seq_to_set();
    let range: Set<int> = vstd::set_lib::set_int_range(0, keys.len() as int);
    vstd::set_lib::lemma_int_range(0, keys.len() as int);
    assert(places.to_set().subset_of(range));
    vstd::set_lib::lemma_subset_equality(places.to_set(), range);
    assert(places.to_set().contains(place));
    let a = choose|a: int| 0 <= a < places.len() && places[a] == place;
    assert(order[a] == place);
}

/// A ranking goes by the first part of the keys, where these are equal by the
/// second, and where the keys are equal by the places.
pub proof fn ranking_ascends(order: Seq<usize>, keys: Seq<(i64, i128)>, a: int, b: int)
    requires
        is_ranking(order, keys),
        0 <= a < b < order.len(),
    ensures
        order.len() == keys.len(),
        order[a] < keys.len(),
        order[b] < keys.len(),
        order[a] != order[b],
        keys[order[a] as int].0 <= keys[order[b] as int].0,
        keys[order[a] as int].0 == keys[order[b] as int].0 ==> keys[order[a] as int].1
            <= keys[order[b] as int].1,
        keys[order[a] as int] == keys[order[b] as int] ==> order[a] < order[b],
{
    assert(order[a] != order[b]);
    assert(key_at_most(keys[order[a] as int], keys[order[b] as int]));
}

/// What a ranking puts behind its first places has no smaller key than these.
pub proof fn ranking_puts_smallest_first(
    order: Seq<usize>,
    keys: Seq<(i64, i128)>,
    count: int,
    first: int,
    left_out: int,
)
    requires
        is_ranking(order, keys),
        0 <= first < count <= order.len(),
        0 <= left_out < keys.len(),
        forall|a: int| 0 <= a < count ==> #[trigger] order[a] != left_out,
    ensures
        keys[order[first] as int].0 <= keys[left_out].0,
        keys[order[first] as int].0 == keys[left_out].0 ==> keys[order[first] as int].1
            <= keys[left_out].1,
        keys[order[first] as int] == keys[left_out] ==> order[first] < left_out,
{
    ranking_reaches_all(order, keys, left_out);
    let b = choose|b: int| 0 <= b < order.len() && #[trigger] order[b] == left_out;
    ranking_ascends(order, keys, first, b);
}

} // verus!
