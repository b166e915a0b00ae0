//! Random addresses inside a network.
use crate::net::{IpAddr, IpNet};
use crate::random::gen_range;
use vstd::prelude::*;

verus! {

/// The lowest address worth probing: the one after the network address, where
/// the network has more than two addresses.
pub open spec fn host_low(subnet: IpNet) -> int {
    if subnet.last() - subnet.first() >= 2 {
        subnet.first() + 1
    } else {
        subnet.first()
    }
}

/// The highest address worth probing: the one before the broadcast address,
/// where the network has more than two addresses.
pub open spec fn host_high(subnet: IpNet) -> int {
    if subnet.last() - subnet.first() >= 2 {
        subnet.last() - 1
    } else {
        subnet.last()
    }
}

/// Whether an address is one that a probe of the network may use.
pub open spec fn is_host_of(ip: IpAddr, subnet: IpNet) -> bool {
    ip.width() == subnet.width() && host_low(subnet) <= ip.value() <= host_high(subnet)
}

/// The lowest and the highest address of a network that a probe may use.
pub fn host_range(subnet: &IpNet) -> (r: (u128, u128))
    requires
        subnet.wf(),
    ensures
        r.0 == host_low(*subnet),
        r.1 == host_high(*subnet),
{
    let start: u128 = match subnet.network() {
        IpAddr::V4(a) => a as u128,
        IpAddr::V6(a) => a,
    };
    let end: u128 = match subnet.broadcast() {
        IpAddr::V4(a) => a as u128,
        IpAddr::V6(a) => a,
    };
    proof {
        subnet.lemma_first_at_most_last();
    }
    if end - start >= 2 {
        (start + 1, end - 1)
    } else {
        (start, end)
    }
}

/// Draws an address of a network at random.
///
/// The network address and the broadcast address are left out, unless the
/// network has no other address.
pub fn generate_random_ip_in_subnet(subnet: &IpNet, rng: &mut rand::rngs::ThreadRng) -> (ip: IpAddr)
    requires
        subnet.wf(),
    ensures
        is_host_of(ip, *subnet),
        subnet.has(ip),
{
    let (low, high): (u128, u128) = host_range(subnet);
    proof {
        subnet.lemma_first_at_most_last();
    }
    let drawn: u128 = gen_range(rng, low, high);
    match subnet {
        IpNet::V4 { .. } => IpAddr::V4(drawn as u32),
        IpNet::V6 { .. } => IpAddr::V6(drawn),
    }
}

/// A network has an address to probe, and every such address is one of its
/// own.
pub proof fn host_range_within(subnet: IpNet)
    requires
        subnet.wf(),
    ensures
        subnet.first() <= host_low(subnet) <= host_high(subnet) <= subnet.last(),
{
    subnet.lemma_first_at_most_last();
}

/// A network with more than two addresses keeps its first and its last address
/// from probes, and nothing else; a smaller one keeps none.
pub proof fn hosts_leave_out_the_ends(ip: IpAddr, subnet: IpNet)
    requires
        subnet.wf(),
    ensures
        subnet.last() - subnet.first() >= 2 ==> (is_host_of(ip, subnet) <==> subnet.has(ip)
            && ip.value() != subnet.first() && ip.value() != subnet.last()),
        subnet.last() - subnet.first() < 2 ==> (is_host_of(ip, subnet) <==> subnet.has(ip)),
{
    subnet.lemma_first_at_most_last();
}

} // verus!
