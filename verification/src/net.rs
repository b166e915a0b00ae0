//! Addresses and networks.
use vstd::arithmetic::div_mod::{
    lemma_fundamental_div_mod, lemma_fundamental_div_mod_converse, lemma_mod_multiples_basic,
};
use vstd::arithmetic::power2::{
    lemma2_to64, lemma_pow2_adds, lemma_pow2_pos, lemma_pow2_unfold, pow2,
};
use vstd::prelude::*;

verus! {

/// An IPv4 or IPv6 address, as the number its octets spell.
#[derive(Clone, Copy, Debug, PartialEq, Eq, Structural)]
pub enum IpAddr {
    V4(u32),
    V6(u128),
}

/// An address and a port.
#[derive(Clone, Copy, Debug, PartialEq, Eq, Structural)]
pub struct SocketAddr {
    pub ip: IpAddr,
    pub port: u16,
}

/// An address with the length of its network prefix.
#[derive(Clone, Copy, Debug, PartialEq, Eq, Structural)]
#[allow(inconsistent_fields)]
pub enum IpNet {
    V4 { addr: u32, prefix_len: u8 },
    V6 { addr: u128, prefix_len: u8 },
}

impl IpAddr {
    /// The number of bits of an address of this family.
    pub open spec fn width(self) -> nat {
        match self {
            IpAddr::V4(_) => 32,
            IpAddr::V6(_) => 128,
        }
    }

    pub open spec fn value(self) -> nat {
        match self {
            IpAddr::V4(a) => a as nat,
            IpAddr::V6(a) => a as nat,
        }
    }

    /// Whether the address is an IPv4 address.
    pub fn is_ipv4(&self) -> (b: bool)
        ensures
            b == (self is V4),
    {
        matches!(self, IpAddr::V4(_))
    }
}

impl IpNet {
    /// The number of bits of an address of this family.
    pub open spec fn width(self) -> nat {
        match self {
            IpNet::V4 { .. } => 32,
            IpNet::V6 { .. } => 128,
        }
    }

    pub open spec fn addr_value(self) -> nat {
        match self {
            IpNet::V4 { addr, .. } => addr as nat,
            IpNet::V6 { addr, .. } => addr as nat,
        }
    }

    pub open spec fn prefix(self) -> nat {
        match self {
            IpNet::V4 { prefix_len, .. } => prefix_len as nat,
            IpNet::V6 { prefix_len, .. } => prefix_len as nat,
        }
    }

    /// The prefix is no longer than an address.
    pub open spec fn wf(self) -> bool {
        self.prefix() <= self.width()
    }

    /// The number of addresses in the network.
    pub open spec fn size(self) -> nat {
        pow2((self.width() - self.prefix()) as nat)
    }

    /// The lowest address: the own address with every host bit cleared.
    pub open spec fn first(self) -> int {
        self.addr_value() - self.addr_value() % self.size()
    }

    /// The highest address: the own address with every host bit set.
    pub open spec fn last(self) -> int {
        self.first() + self.size() - 1
    }

    /// Whether the network holds an address.
    pub open spec fn has(self, ip: IpAddr) -> bool {
        self.width() == ip.width() && self.first() <= ip.value() <= self.last()
    }

    /// A network of the same family with another address and prefix.
    pub open spec fn sibling(self, addr: int, prefix_len: int) -> IpNet {
        match self {
            IpNet::V4 { .. } => IpNet::V4 { addr: addr as u32, prefix_len: prefix_len as u8 },
            IpNet::V6 { .. } => IpNet::V6 { addr: addr as u128, prefix_len: prefix_len as u8 },
        }
    }

    /// The network with a shorter prefix that this one lies in.
    pub open spec fn widened(self, prefix_len: nat) -> IpNet {
        self.sibling(self.addr_value() as int, prefix_len as int)
    }

    /// The networks of prefix `new_prefix_len` inside this one, in order.
    pub open spec fn subnets_spec(self, new_prefix_len: nat) -> Seq<IpNet> {
        Seq::new(
            pow2((new_prefix_len - self.prefix()) as nat),
            |i: int|
                self.sibling(
                    self.first() + i * pow2((self.width() - new_prefix_len) as nat),
                    new_prefix_len as int,
                ),
        )
    }

    /// The address of this family with a given value.
    pub open spec fn address(self, value: int) -> IpAddr {
        match self {
            IpNet::V4 { .. } => IpAddr::V4(value as u32),
            IpNet::V6 { .. } => IpAddr::V6(value as u128),
        }
    }

    /// The length of the prefix.
    pub fn prefix_len(&self) -> (len: u8)
        ensures
            len == self.prefix(),
    {
        match self {
            IpNet::V4 { prefix_len, .. } => *prefix_len,
            IpNet::V6 { prefix_len, .. } => *prefix_len,
        }
    }

    /// The lowest and the highest address, as numbers.
    fn bounds(&self) -> (r: (u128, u128))
        requires
            self.wf(),
        ensures
            r.0 == self.first(),
            r.1 == self.last(),
    {
        proof {
            lemma_net_in_range(*self);
        }
        let (addr, prefix_len, width): (u128, u8, u8) = match self {
            IpNet::V4 { addr, prefix_len } => (*addr as u128, *prefix_len, 32u8),
            IpNet::V6 { addr, prefix_len } => (*addr, *prefix_len, 128u8),
        };
        if width - prefix_len == 128 {
            proof {
                lemma_pow2_128();
                lemma_fundamental_div_mod_converse(addr as int, pow2(128) as int, 0, addr as int);
            }
            return (0, u128::MAX);
        }
        let size: u128 = power_of_two(width - prefix_len);
        let first: u128 = addr - addr % size;
        (first, first + (size - 1))
    }

    /// The lowest address of the network.
    pub fn network(&self) -> (ip: IpAddr)
        requires
            self.wf(),
        ensures
            ip == self.address(self.first()),
            ip.width() == self.width(),
            ip.value() == self.first(),
    {
        proof {
            lemma_net_in_range(*self);
        }
        let (first, _): (u128, u128) = self.bounds();
        match self {
            IpNet::V4 { .. } => IpAddr::V4(first as u32),
            IpNet::V6 { .. } => IpAddr::V6(first),
        }
    }

    /// The highest address of the network.
    pub fn broadcast(&self) -> (ip: IpAddr)
        requires
            self.wf(),
        ensures
            ip == self.address(self.last()),
            ip.width() == self.width(),
            ip.value() == self.last(),
    {
        proof {
            lemma_net_in_range(*self);
        }
        let (_, last): (u128, u128) = self.bounds();
        match self {
            IpNet::V4 { .. } => IpAddr::V4(last as u32),
            IpNet::V6 { .. } => IpAddr::V6(last),
        }
    }

    /// Whether the network holds an address.
    pub fn contains(&self, ip: &IpAddr) -> (b: bool)
        requires
            self.wf(),
        ensures
            b == self.has(*ip),
    {
        let (first, last): (u128, u128) = self.bounds();
        match (self, ip) {
            (IpNet::V4 { .. }, IpAddr::V4(value)) => first <= *value as u128 && *value as u128
                <= last,
            (IpNet::V6 { .. }, IpAddr::V6(value)) => first <= *value && *value <= last,
            _ => false,
        }
    }

    /// Splits the network into the networks of a longer prefix.
    ///
    /// A prefix that is shorter than the own one or longer than an address is
    /// refused.
    pub fn subnets(&self, new_prefix_len: u8) -> (r: Result<Vec<IpNet>, PrefixLenError>)
        requires
            self.wf(),
        ensures
            r is Err <==> (self.prefix() > new_prefix_len || new_prefix_len > self.width()),
            r matches Ok(nets) ==> nets@ == self.subnets_spec(new_prefix_len as nat),
    {
        let prefix_len: u8 = self.prefix_len();
        let width: u8 = match self {
            IpNet::V4 { .. } => 32,
            IpNet::V6 { .. } => 128,
        };
        if prefix_len > new_prefix_len || new_prefix_len > width {
            return Err(PrefixLenError {  });
        }
        let ghost all: Seq<IpNet> = self.subnets_spec(new_prefix_len as nat);
        let ghost step: int = pow2((width - new_prefix_len) as nat) as int;
        proof {
            lemma_net_in_range(*self);
            lemma_pow2_pos((new_prefix_len - prefix_len) as nat);
            lemma_pow2_pos((width - new_prefix_len) as nat);
            lemma_pow2_adds((new_prefix_len - prefix_len) as nat, (width - new_prefix_len) as nat);
            assert(pow2(0) == 1) by {
                lemma2_to64();
            }
        }
        let (first, last): (u128, u128) = self.bounds();
        let mut nets: Vec<IpNet> = Vec::new();
        if new_prefix_len == prefix_len {
            nets.push(self.at(first, new_prefix_len));
            assert(nets@ =~= all);
            return Ok(nets);
        }
        let size: u128 = power_of_two(width - new_prefix_len);
        let mut current: u128 = first;
        assert(all.len() * step == self.size());
        loop
            invariant_except_break
                nets@.len() < all.len(),
            invariant
                nets@.len() <= all.len(),
                nets@ =~= all.take(nets@.len() as int),
                all == self.subnets_spec(new_prefix_len as nat),
                all.len() * step == self.size(),
                step == size,
                size >= 1,
                step == pow2((width - new_prefix_len) as nat),
                first == self.first(),
                last == self.last(),
                nets@.len() < all.len() ==> current == first + nets@.len() * step,
                self.width() == width,
                prefix_len == self.prefix(),
                prefix_len < new_prefix_len <= width,
                self.wf(),
            ensures
                nets@.len() == all.len(),
            decreases all.len() - nets@.len(),
        {
            let ghost k: int = nets@.len() as int;
            nets.push(self.at(current, new_prefix_len));
            assert(nets@[k] == all[k]);
            assert(all.take(k + 1) =~= all.take(k).push(all[k]));
            assert((k + 1) * step == k * step + step) by (nonlinear_arith);
            assert((k + 1) * step <= all.len() * step) by (nonlinear_arith)
                requires
                    k + 1 <= all.len(),
                    step >= 1,
            ;
            if last - current < size {
                assert(k + 1 == all.len()) by (nonlinear_arith)
                    requires
                        last - (first + k * step) < step,
                        last == first + all.len() * step - 1,
                        k + 1 <= all.len(),
                        step >= 1,
                ;
                break;
            }
            assert(k + 1 < all.len()) by (nonlinear_arith)
                requires
                    last - (first + k * step) >= step,
                    last == first + all.len() * step - 1,
                    step >= 1,
            ;
            current = current + size;
        }
        assert(nets@ =~= all);
        Ok(nets)
    }

    /// A network has at least one address.
    pub proof fn lemma_first_at_most_last(self)
        requires
            self.wf(),
        ensures
            0 <= self.first() <= self.last() < pow2(self.width()),
            pow2(32) == 0x1_0000_0000,
            pow2(128) == u128::MAX + 1,
    {
        lemma_net_in_range(self);
    }

    /// The network of this family at a given address.
    fn at(&self, addr: u128, prefix_len: u8) -> (net: IpNet)
        ensures
            net == self.sibling(addr as int, prefix_len as int),
    {
        match self {
            IpNet::V4 { .. } => IpNet::V4 { addr: addr as u32, prefix_len },
            IpNet::V6 { .. } => IpNet::V6 { addr, prefix_len },
        }
    }
}

/// The prefix asked for is not one that the network can be split into.
#[derive(Clone, Copy, Debug, PartialEq, Eq, Structural)]
pub struct PrefixLenError {}

/// Two to the power of `n`.
fn power_of_two(n: u8) -> (p: u128)
    requires
        n < 128,
    ensures
        p == pow2(n as nat),
{
    let mut p: u128 = 1;
    let mut i: u8 = 0;
    proof {
        lemma2_to64();
    }
    while i < n
        invariant
            i <= n < 128,
            p == pow2(i as nat),
        decreases n - i,
    {
        proof {
            lemma_pow2_unfold((i + 1) as nat);
            lemma_pow2_128();
            lemma_pow2_adds((i + 1) as nat, (128 - (i + 1)) as nat);
            lemma_pow2_pos((128 - (i + 1)) as nat);
            lemma_pow2_pos((127 - (i + 1)) as nat);
            lemma_pow2_unfold((128 - (i + 1)) as nat);
            assert(pow2((i + 1) as nat) * 2 <= pow2(128)) by (nonlinear_arith)
                requires
                    pow2(128) == pow2((i + 1) as nat) * pow2((128 - (i + 1)) as nat),
                    pow2((128 - (i + 1)) as nat) >= 2,
                    pow2((i + 1) as nat) >= 0,
            ;
        }
        p = p * 2;
        i = i + 1;
    }
    p
}

proof fn lemma_pow2_128()
    ensures
        pow2(32) == 0x1_0000_0000,
        pow2(128) == u128::MAX + 1,
{
    lemma2_to64();
    vstd::arithmetic::power2::lemma2_to64_rest();
    lemma_pow2_adds(64, 64);
}

/// A network lies inside the range of its family, and its size divides both
/// its lowest address and the size of that range.
proof fn lemma_net_in_range(net: IpNet)
    requires
        net.wf(),
    ensures
        net.size() >= 1,
        0 <= net.first() <= net.addr_value(),
        net.last() < pow2(net.width()),
        pow2(net.width()) == net.size() * pow2(net.prefix()),
        net.first() % (net.size() as int) == 0,
        pow2(32) == 0x1_0000_0000,
        pow2(128) == u128::MAX + 1,
{
    let size = net.size() as int;
    let addr = net.addr_value() as int;
    let count = pow2(net.prefix()) as int;
    lemma_pow2_128();
    lemma_pow2_pos((net.width() - net.prefix()) as nat);
    lemma_pow2_adds((net.width() - net.prefix()) as nat, net.prefix());
    lemma_fundamental_div_mod(addr, size);
    let q = addr / size;
    assert(addr < size * count);
    assert(0 <= q < count && size * q + size <= size * count && size * q >= 0) by (nonlinear_arith)
        requires
            addr == size * q + addr % size,
            0 <= addr < size * count,
            0 <= addr % size < size,
            size >= 1,
    ;
    assert(net.first() == size * q);
    lemma_mod_multiples_basic(q, size);
    vstd::arithmetic::mul::lemma_mul_is_commutative(q, size);
}

/// Where the `i`-th network of a split lies.
proof fn lemma_subnet_bounds(net: IpNet, new_prefix_len: nat, i: int)
    requires
        net.wf(),
        net.prefix() <= new_prefix_len <= net.width(),
        0 <= i < pow2((new_prefix_len - net.prefix()) as nat),
    ensures
        ({
            let sub = net.subnets_spec(new_prefix_len)[i];
            let step = pow2((net.width() - new_prefix_len) as nat) as int;
            &&& sub.wf()
            &&& sub.width() == net.width()
            &&& sub.prefix() == new_prefix_len
            &&& sub.first() == net.first() + i * step
            &&& sub.addr_value() == sub.first()
            &&& sub.last() == net.first() + i * step + step - 1
            &&& sub.last() <= net.last()
            &&& net.size() == step * pow2((new_prefix_len - net.prefix()) as nat)
            &&& step >= 1
        }),
{
    let step = pow2((net.width() - new_prefix_len) as nat) as int;
    let count = pow2((new_prefix_len - net.prefix()) as nat) as int;
    lemma_net_in_range(net);
    lemma_pow2_pos((net.width() - new_prefix_len) as nat);
    lemma_pow2_adds((net.width() - new_prefix_len) as nat, (new_prefix_len - net.prefix()) as nat);
    let start = net.first() + i * step;
    assert(0 <= i * step && i * step + step <= step * count) by (nonlinear_arith)
        requires
            0 <= i < count,
            step >= 1,
    ;
    let sub = net.subnets_spec(new_prefix_len)[i];
    assert(sub == net.sibling(start, new_prefix_len as int));
    assert(sub.addr_value() == start);
    // The step divides the lowest address, since it divides the size.
    lemma_fundamental_div_mod(net.first(), net.size() as int);
    let q = net.first() / (net.size() as int);
    assert(start == (count * q + i) * step) by (nonlinear_arith)
        requires
            net.first() == net.size() * q,
            net.size() == step * count,
            start == net.first() + i * step,
    ;
    lemma_mod_multiples_basic(count * q + i, step);
}

/// Every part of a split is a well-formed network of the prefix asked for.
pub proof fn subnets_wf(net: IpNet, new_prefix_len: nat, i: int)
    requires
        net.wf(),
        net.prefix() <= new_prefix_len <= net.width(),
        0 <= i < net.subnets_spec(new_prefix_len).len(),
    ensures
        net.subnets_spec(new_prefix_len)[i].wf(),
        net.subnets_spec(new_prefix_len)[i].prefix() == new_prefix_len,
        net.subnets_spec(new_prefix_len)[i].width() == net.width(),
{
    lemma_subnet_bounds(net, new_prefix_len, i);
}

/// A split loses and invents nothing: an address is in one of the parts
/// exactly when it is in the network.
pub proof fn subnets_cover(net: IpNet, new_prefix_len: nat, ip: IpAddr)
    requires
        net.wf(),
        net.prefix() <= new_prefix_len <= net.width(),
    ensures
        net.has(ip) <==> exists|i: int|
            0 <= i < net.subnets_spec(new_prefix_len).len() && (
            #[trigger] net.subnets_spec(new_prefix_len)[i]).has(ip),
{
    let all = net.subnets_spec(new_prefix_len);
    let step = pow2((net.width() - new_prefix_len) as nat) as int;
    let count = pow2((new_prefix_len - net.prefix()) as nat) as int;
    lemma_pow2_pos((new_prefix_len - net.prefix()) as nat);
    lemma_subnet_bounds(net, new_prefix_len, 0);
    if net.has(ip) {
        let offset = ip.value() - net.first();
        let i = offset / step;
        lemma_fundamental_div_mod(offset, step);
        assert(0 <= i < count) by (nonlinear_arith)
            requires
                offset == step * i + offset % step,
                0 <= offset % step < step,
                0 <= offset < step * count,
                step >= 1,
        ;
        assert(i * step == step * i) by (nonlinear_arith);
        lemma_subnet_bounds(net, new_prefix_len, i);
        assert(all[i].has(ip));
    }
    if exists|i: int| 0 <= i < all.len() && (#[trigger] all[i]).has(ip) {
        let i = choose|i: int| 0 <= i < all.len() && (#[trigger] all[i]).has(ip);
        lemma_subnet_bounds(net, new_prefix_len, i);
        assert(i * step >= 0) by (nonlinear_arith)
            requires
                i >= 0,
                step >= 1,
        ;
    }
}

/// The parts of a split share no address.
pub proof fn subnets_disjoint(net: IpNet, new_prefix_len: nat, i: int, j: int, ip: IpAddr)
    requires
        net.wf(),
        net.prefix() <= new_prefix_len <= net.width(),
        0 <= i < j < net.subnets_spec(new_prefix_len).len(),
    ensures
        !(net.subnets_spec(new_prefix_len)[i].has(ip) && net.subnets_spec(new_prefix_len)[j].has(
            ip,
        )),
{
    let step = pow2((net.width() - new_prefix_len) as nat) as int;
    lemma_subnet_bounds(net, new_prefix_len, i);
    lemma_subnet_bounds(net, new_prefix_len, j);
    assert(i * step + step <= j * step) by (nonlinear_arith)
        requires
            i + 1 <= j,
            step >= 1,
    ;
}

/// What the text of a network is read as by `ipnet`.
pub uninterp spec fn ipnet_parse(text: Seq<char>) -> Option<IpNet>;

/// Calls the `FromStr` of `ipnet::IpNet`. It claims that the result depends on
/// the text alone, and that the prefix of a network so read is no longer than
/// its address.
#[verifier::external_body]
fn parse_with_ipnet(text: &str) -> (r: Option<IpNet>)
    ensures
        r == ipnet_parse(text@),
        r matches Some(net) ==> net.wf(),
{
    text.parse::<ipnet::IpNet>().ok().map(|net| match net {
        ipnet::IpNet::V4(n) => IpNet::V4 { addr: n.addr().into(), prefix_len: n.prefix_len() },
        ipnet::IpNet::V6(n) => IpNet::V6 { addr: n.addr().into(), prefix_len: n.prefix_len() },
    })
}

/// Reads a network, such as `192.0.2.0/24`.
pub fn parse_ipnet(text: &str) -> (r: Option<IpNet>)
    ensures
        r == ipnet_parse(text@),
        r matches Some(net) ==> net.wf(),
{
    parse_with_ipnet(text)
}

/// The address that a text holds, alone or with a prefix behind a slash, as
/// `ipnetwork` reads it.
pub uninterp spec fn ipnetwork_address(text: Seq<char>) -> Option<IpAddr>;

/// Calls the `FromStr` of `ipnetwork::IpNetwork` and keeps the address. It
/// claims that the result depends on the text alone.
#[verifier::external_body]
pub(crate) fn parse_with_ipnetwork(text: &str) -> (r: Option<IpAddr>)
    ensures
        r == ipnetwork_address(text@),
{
    text.parse::<ipnetwork::IpNetwork>().ok().map(|net| match net {
        ipnetwork::IpNetwork::V4(n) => IpAddr::V4(n.ip().into()),
        ipnetwork::IpNetwork::V6(n) => IpAddr::V6(n.ip().into()),
    })
}

/// The address that a text is, with nothing behind it.
pub open spec fn plain_address(text: Seq<char>) -> Option<IpAddr> {
    if text.contains('/') {
        None
    } else {
        ipnetwork_address(text)
    }
}

/// Reads an address with nothing behind it.
pub fn parse_ip(text: &str) -> (r: Option<IpAddr>)
    ensures
        r == plain_address(text@),
{
    if crate::text::has_char(text, '/') {
        return None;
    }
    parse_with_ipnetwork(text)
}

/// Whether one of the networks holds an address.
pub open spec fn covered(nets: Seq<IpNet>, ip: IpAddr) -> bool {
    exists|i: int| 0 <= i < nets.len() && (#[trigger] nets[i]).has(ip)
}

/// Whether a list of networks holds every address of a network.
pub open spec fn filled(net: IpNet, nets: Seq<IpNet>) -> bool {
    forall|ip: IpAddr| #[trigger] net.has(ip) ==> covered(nets, ip)
}

/// What `ipnet::IpNet::aggregate` makes of a list of networks.
pub uninterp spec fn ipnet_aggregate(nets: Seq<IpNet>) -> Seq<IpNet>;

/// Calls `ipnet::IpNet::aggregate`, which joins networks that overlap or touch.
/// Its claims: the result depends on the list alone; it holds exactly the
/// addresses that the list holds; each network in it starts at its own
/// address; the networks of one family come in ascending order, none reaching
/// into the next; and each is as wide as it can be, so that the list does not
/// hold all of any wider network that it lies in.
#[verifier::external_body]
pub(crate) fn aggregate(nets: &Vec<IpNet>) -> (r: Vec<IpNet>)
    requires
        forall|i: int| 0 <= i < nets@.len() ==> (#[trigger] nets@[i]).wf(),
    ensures
        r@ == ipnet_aggregate(nets@),
        forall|i: int| 0 <= i < r@.len() ==> (#[trigger] r@[i]).wf(),
        forall|i: int| 0 <= i < r@.len() ==> (#[trigger] r@[i]).addr_value() == r@[i].first(),
        forall|ip: IpAddr| #[trigger] covered(r@, ip) <==> covered(nets@, ip),
        forall|i: int, j: int|
            0 <= i < j < r@.len() && (#[trigger] r@[i]).width() == (#[trigger] r@[j]).width()
                ==> r@[i].last() < r@[j].first(),
        forall|i: int, p: nat|
            0 <= i < r@.len() && p < r@[i].prefix() ==> !filled(
                #[trigger] r@[i].widened(p),
                nets@,
            ),
{
    let outside: Vec<ipnet::IpNet> = nets.iter().map(|net| match *net {
        IpNet::V4 { addr, prefix_len: p } => ipnet::Ipv4Net::new(addr.into(), p).unwrap().into(),
        IpNet::V6 { addr, prefix_len: p } => ipnet::Ipv6Net::new(addr.into(), p).unwrap().into(),
    }).collect();
    ipnet::IpNet::aggregate(&outside).iter().map(|net| match net {
        ipnet::IpNet::V4(n) => IpNet::V4 { addr: n.addr().into(), prefix_len: n.prefix_len() },
        ipnet::IpNet::V6(n) => IpNet::V6 { addr: n.addr().into(), prefix_len: n.prefix_len() },
    }).collect()
}

/// The addresses of a network are as many as its prefix leaves free, start at a
/// multiple of that, and have the network's own address among them.
pub proof fn networks_start_at_multiples(net: IpNet)
    requires
        net.wf(),
    ensures
        net.first() % (pow2((net.width() - net.prefix()) as nat) as int) == 0,
        net.last() - net.first() + 1 == pow2((net.width() - net.prefix()) as nat),
        net.first() <= net.addr_value() <= net.last(),
        net is V4 ==> net.width() == 32,
        net is V6 ==> net.width() == 128,
{
    lemma_net_in_range(net);
    assert(net.addr_value() % net.size() < net.size()) by (nonlinear_arith)
        requires
            net.size() >= 1,
    ;
}

/// A network has an address if and only if both are of one family and the
/// address starts with the bits of the prefix.
pub proof fn prefix_decides(net: IpNet, ip: IpAddr)
    requires
        net.wf(),
    ensures
        net.has(ip) <==> (net is V4 <==> ip is V4) && ip.value() / pow2(
            (net.width() - net.prefix()) as nat,
        ) == net.addr_value() / pow2((net.width() - net.prefix()) as nat),
{
    lemma_net_in_range(net);
    let size: int = net.size() as int;
    let value: int = ip.value() as int;
    let addr: int = net.addr_value() as int;
    assert(addr - addr % size <= value <= addr - addr % size + size - 1 <==> value / size == addr
        / size) by (nonlinear_arith)
        requires
            size >= 1,
            value >= 0,
            addr >= 0,
    ;
}

/// The parts of a network follow each other: the first starts where the network
/// starts, each next one where the one before it ends, and the last ends where
/// the network ends.
pub proof fn subnets_follow_each_other(net: IpNet, new_prefix_len: nat, i: int)
    requires
        net.wf(),
        net.prefix() <= new_prefix_len <= net.width(),
        0 <= i < net.subnets_spec(new_prefix_len).len(),
    ensures
        net.subnets_spec(new_prefix_len)[0].first() == net.first(),
        i + 1 < net.subnets_spec(new_prefix_len).len() ==> net.subnets_spec(new_prefix_len)[i
            + 1].first() == net.subnets_spec(new_prefix_len)[i].last() + 1,
        i + 1 == net.subnets_spec(new_prefix_len).len() ==> net.subnets_spec(
            new_prefix_len,
        )[i].last() == net.last(),
{
    let step: int = pow2((net.width() - new_prefix_len) as nat) as int;
    lemma_subnet_bounds(net, new_prefix_len, 0);
    lemma_subnet_bounds(net, new_prefix_len, i);
    assert(0 * step == 0);
    assert(i * step + step == (i + 1) * step) by (nonlinear_arith);
    if i + 1 < net.subnets_spec(new_prefix_len).len() {
        lemma_subnet_bounds(net, new_prefix_len, i + 1);
    } else {
        assert((i + 1) * step == step * pow2((new_prefix_len - net.prefix()) as nat))
            by (nonlinear_arith)
            requires
                i + 1 == pow2((new_prefix_len - net.prefix()) as nat),
        ;
    }
}

/// A text with a slash is no plain address, and another is one if and only if
/// it reads as a network, whose address it then is.
pub proof fn plain_addresses_have_no_slash(text: Seq<char>)
    ensures
        (exists|i: int| 0 <= i < text.len() && #[trigger] text[i] == '/') ==> plain_address(text)
            is None,
        (forall|i: int| 0 <= i < text.len() ==> #[trigger] text[i] != '/') ==> plain_address(text)
            == ipnetwork_address(text),
{
}

} // verus!
