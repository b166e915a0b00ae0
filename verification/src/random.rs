//! The random choices, made by the generator of the current thread.
use crate::net::{IpAddr, IpNet};
use rand::seq::SliceRandom;
use rand::Rng;
use vstd::prelude::*;

verus! {

/// The random generator of `rand`.
#[verifier::external_type_specification]
#[verifier::external_body]
pub struct ExThreadRng(rand::rngs::ThreadRng);

/// Calls `rand::thread_rng`. Nothing is claimed of the generator it hands out.
/// The call panics where the system gives no seed.
#[verifier::external_body]
pub(crate) fn thread_rng() -> rand::rngs::ThreadRng {
    rand::thread_rng()
}

/// Calls `rand::Rng::gen_range` on the closed range from `low` to `high`, and
/// claims that the number drawn lies in it. The call panics on an empty range.
#[verifier::external_body]
pub(crate) fn gen_range(rng: &mut rand::rngs::ThreadRng, low: u128, high: u128) -> (drawn: u128)
    requires
        low <= high,
    ensures
        low <= drawn <= high,
{
    rng.gen_range(low..=high)
}

/// Calls `rand::seq::SliceRandom::shuffle`, and claims that the items after it
/// are the items before it in some order.
#[verifier::external_body]
pub(crate) fn shuffle(rng: &mut rand::rngs::ThreadRng, items: &mut Vec<IpNet>)
    ensures
        final(items)@.to_multiset() == old(items)@.to_multiset(),
{
    items.shuffle(rng)
}

/// Calls `rand::seq::SliceRandom::choose_multiple`, and claims that as many
/// items come back as were asked for, or all where there are fewer, and that
/// they are drawn without repetition.
#[verifier::external_body]
pub(crate) fn choose_multiple(
    rng: &mut rand::rngs::ThreadRng,
    items: &Vec<IpNet>,
    amount: usize,
) -> (chosen: Vec<IpNet>)
    ensures
        chosen@.len() == if amount <= items@.len() { amount as nat } else { items@.len() },
        chosen@.to_multiset().subset_of(items@.to_multiset()),
{
    items.choose_multiple(rng, amount).cloned().collect()
}

/// Calls `rand::seq::SliceRandom::choose`, and claims that it gives one of the
/// items, or nothing where there is none.
#[verifier::external_body]
pub(crate) fn choose_one(rng: &mut rand::rngs::ThreadRng, items: &[IpAddr]) -> (chosen: Option<
    IpAddr,
>)
    ensures
        chosen is None <==> items@.len() == 0,
        chosen matches Some(item) ==> items@.contains(item),
{
    items.choose(rng).copied()
}

} // verus!
