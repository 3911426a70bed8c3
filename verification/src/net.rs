//! IP addresses and networks as plain numbers, and what the library has from
//! `ipnet` about them.

use vstd::arithmetic::power2::pow2;
use vstd::prelude::*;
use vstd::string::StringExecFns;

use crate::text::{decimal, decimal_text};

verus! {

/// An IPv4 address, most significant octet first.
#[derive(Clone, Copy, Debug, PartialEq, Eq, Hash, Structural)]
pub struct Ipv4Addr {
    pub bits: u32,
}

/// An IPv6 address, most significant octet first.
#[derive(Clone, Copy, Debug, PartialEq, Eq, Hash, Structural)]
pub struct Ipv6Addr {
    pub bits: u128,
}

/// An IP address of either family.
#[derive(Clone, Copy, Debug, PartialEq, Eq, Hash, Structural)]
pub enum IpAddr {
    V4(Ipv4Addr),
    V6(Ipv6Addr),
}

/// An IPv4 address with a prefix length; the host bits are kept.
#[derive(Clone, Copy, Debug, PartialEq, Eq, Hash, Structural)]
pub struct Ipv4Net {
    pub addr: Ipv4Addr,
    pub prefix_len: u8,
}

/// An IPv6 address with a prefix length; the host bits are kept.
#[derive(Clone, Copy, Debug, PartialEq, Eq, Hash, Structural)]
pub struct Ipv6Net {
    pub addr: Ipv6Addr,
    pub prefix_len: u8,
}

/// A network of either family.
#[derive(Clone, Copy, Debug, PartialEq, Eq, Hash, Structural)]
pub enum IpNet {
    V4(Ipv4Net),
    V6(Ipv6Net),
}

/// The prefix length does not fit the address family.
#[derive(Clone, Copy, Debug, PartialEq, Eq, Structural)]
pub struct PrefixLenError;

/// The IPv4 network of an address and a prefix length, where the length fits.
pub open spec fn v4_checked(addr: Ipv4Addr, prefix_len: u8) -> Result<Ipv4Net, PrefixLenError> {
    if prefix_len <= 32 {
        Ok(Ipv4Net { addr, prefix_len })
    } else {
        Err(PrefixLenError)
    }
}

/// The IPv6 network of an address and a prefix length, where the length fits.
pub open spec fn v6_checked(addr: Ipv6Addr, prefix_len: u8) -> Result<Ipv6Net, PrefixLenError> {
    if prefix_len <= 128 {
        Ok(Ipv6Net { addr, prefix_len })
    } else {
        Err(PrefixLenError)
    }
}

/// `ipnet::Ipv4Net::new` accepts prefix lengths up to 32 and keeps the address
/// and the length as they are; it refuses longer ones.
#[verifier::external_body]
fn ipnet_v4(addr: Ipv4Addr, prefix_len: u8) -> (r: Result<Ipv4Net, PrefixLenError>)
    ensures
        r == v4_checked(addr, prefix_len),
{
    match ipnet::Ipv4Net::new(addr.bits.into(), prefix_len) {
        Ok(net) => Ok(
            Ipv4Net { addr: Ipv4Addr { bits: net.addr().into() }, prefix_len: net.prefix_len() },
        ),
        Err(_) => Err(PrefixLenError),
    }
}

/// `ipnet::Ipv6Net::new` accepts prefix lengths up to 128 and keeps the address
/// and the length as they are; it refuses longer ones.
#[verifier::external_body]
fn ipnet_v6(addr: Ipv6Addr, prefix_len: u8) -> (r: Result<Ipv6Net, PrefixLenError>)
    ensures
        r == v6_checked(addr, prefix_len),
{
    match ipnet::Ipv6Net::new(addr.bits.into(), prefix_len) {
        Ok(net) => Ok(
            Ipv6Net { addr: Ipv6Addr { bits: net.addr().into() }, prefix_len: net.prefix_len() },
        ),
        Err(_) => Err(PrefixLenError),
    }
}

impl Ipv4Net {
    /// The prefix length is one that IPv4 has.
    pub open spec fn wf(self) -> bool {
        self.prefix_len <= 32
    }

    /// The network of `addr` with the given prefix length.
    pub fn new(addr: Ipv4Addr, prefix_len: u8) -> (r: Result<Ipv4Net, PrefixLenError>)
        ensures
            r == v4_checked(addr, prefix_len),
    {
        ipnet_v4(addr, prefix_len)
    }
}

impl Ipv6Net {
    /// The prefix length is one that IPv6 has.
    pub open spec fn wf(self) -> bool {
        self.prefix_len <= 128
    }

    /// The network of `addr` with the given prefix length.
    pub fn new(addr: Ipv6Addr, prefix_len: u8) -> (r: Result<Ipv6Net, PrefixLenError>)
        ensures
            r == v6_checked(addr, prefix_len),
    {
        ipnet_v6(addr, prefix_len)
    }
}

impl IpNet {
    /// The prefix length fits the address family.
    pub open spec fn wf(self) -> bool {
        match self {
            IpNet::V4(net) => net.wf(),
            IpNet::V6(net) => net.wf(),
        }
    }

    /// The address part.
    pub open spec fn spec_addr(self) -> IpAddr {
        match self {
            IpNet::V4(net) => IpAddr::V4(net.addr),
            IpNet::V6(net) => IpAddr::V6(net.addr),
        }
    }

    /// The prefix length.
    pub open spec fn spec_prefix_len(self) -> u8 {
        match self {
            IpNet::V4(net) => net.prefix_len,
            IpNet::V6(net) => net.prefix_len,
        }
    }

    /// The address part, host bits included.
    pub fn addr(&self) -> (r: IpAddr)
        ensures
            r == self.spec_addr(),
    {
        match self {
            IpNet::V4(net) => IpAddr::V4(net.addr),
            IpNet::V6(net) => IpAddr::V6(net.addr),
        }
    }

    /// The prefix length.
    pub fn prefix_len(&self) -> (r: u8)
        ensures
            r == self.spec_prefix_len(),
    {
        match self {
            IpNet::V4(net) => net.prefix_len,
            IpNet::V6(net) => net.prefix_len,
        }
    }
}

/// The text of an IPv6 address, as its `Display` writes it.
pub uninterp spec fn v6_text(bits: u128) -> Seq<char>;

/// The `Display` of the IPv6 address that `ipnet::Ipv6Net::addr` hands back: a
/// function of the address alone. How it shortens runs of zeros is not said.
#[verifier::external_body]
fn ipnet_v6_text(addr: Ipv6Addr) -> (r: String)
    ensures
        r@ == v6_text(addr.bits),
{
    ipnet::Ipv6Net::new_assert(addr.bits.into(), 128).addr().to_string()
}

/// The text of an IPv4 address: its octets in decimal with dots between them.
pub open spec fn v4_text(bits: u32) -> Seq<char> {
    decimal((bits / 0x1000000) as nat) + seq!['.'] + decimal((bits / 0x10000 % 0x100) as nat)
        + seq!['.'] + decimal((bits / 0x100 % 0x100) as nat) + seq!['.'] + decimal(
        (bits % 0x100) as nat,
    )
}

/// The text of an address.
pub open spec fn addr_text(addr: IpAddr) -> Seq<char> {
    match addr {
        IpAddr::V4(a) => v4_text(a.bits),
        IpAddr::V6(a) => v6_text(a.bits),
    }
}

/// The text of a network: the address, a slash and the prefix length.
pub open spec fn net_text(net: IpNet) -> Seq<char> {
    addr_text(net.spec_addr()) + seq!['/'] + decimal(net.spec_prefix_len() as nat)
}

impl IpAddr {
    /// The address as text.
    pub fn to_text(&self) -> (r: String)
        ensures
            r@ == addr_text(*self),
    {
        match self {
            IpAddr::V4(a) => {
                let mut out = decimal_text((a.bits / 0x1000000) as u64);
                out.push('.');
                out.append(decimal_text((a.bits / 0x10000 % 0x100) as u64).as_str());
                out.push('.');
                out.append(decimal_text((a.bits / 0x100 % 0x100) as u64).as_str());
                out.push('.');
                out.append(decimal_text((a.bits % 0x100) as u64).as_str());
                assert(out@ =~= v4_text(a.bits));
                out
            },
            IpAddr::V6(a) => ipnet_v6_text(*a),
        }
    }
}

impl IpNet {
    /// The network in CIDR notation.
    pub fn to_text(&self) -> (r: String)
        ensures
            r@ == net_text(*self),
    {
        let mut out = self.addr().to_text();
        out.push('/');
        out.append(decimal_text(self.prefix_len() as u64).as_str());
        assert(out@ =~= net_text(*self));
        out
    }
}

/// The network that a text stands for in CIDR notation, if it is one.
pub uninterp spec fn net_of_text(s: Seq<char>) -> Option<IpNet>;

/// `ipnet::IpNet`'s `FromStr`: a function of the text alone, which yields only
/// prefix lengths that fit the family. Its grammar is not said.
#[verifier::external_body]
fn ipnet_parse(s: &str) -> (r: Option<IpNet>)
    ensures
        r == net_of_text(s@),
        r is Some ==> r->0.wf(),
{
    match s.parse::<ipnet::IpNet>() {
        Ok(ipnet::IpNet::V4(net)) => Some(
            IpNet::V4(
                Ipv4Net { addr: Ipv4Addr { bits: net.addr().into() }, prefix_len: net.prefix_len() },
            ),
        ),
        Ok(ipnet::IpNet::V6(net)) => Some(
            IpNet::V6(
                Ipv6Net { addr: Ipv6Addr { bits: net.addr().into() }, prefix_len: net.prefix_len() },
            ),
        ),
        Err(_) => None,
    }
}

/// Reads a network in CIDR notation.
pub fn parse_net(s: &str) -> (r: Option<IpNet>)
    ensures
        r == net_of_text(s@),
        r is Some ==> r->0.wf(),
{
    ipnet_parse(s)
}

/// An iterator of `ipnet` over IPv4 addresses.
#[verifier::external_type_specification]
#[verifier::external_body]
pub struct ExIpv4AddrRange(ipnet::Ipv4AddrRange);

/// An iterator of `ipnet` over IPv6 addresses.
#[verifier::external_type_specification]
#[verifier::external_body]
pub struct ExIpv6AddrRange(ipnet::Ipv6AddrRange);

/// The addresses that the iterator has not handed out yet, in order.
pub uninterp spec fn v4_left(range: ipnet::Ipv4AddrRange) -> Seq<u32>;

/// The addresses that the iterator has not handed out yet, in order.
pub uninterp spec fn v6_left(range: ipnet::Ipv6AddrRange) -> Seq<u128>;

/// How many addresses an IPv4 network holds.
pub open spec fn v4_size(net: Ipv4Net) -> nat {
    pow2((32 - net.prefix_len) as nat)
}

/// The first address of an IPv4 network.
pub open spec fn v4_network(net: Ipv4Net) -> int {
    net.addr.bits as int - net.addr.bits as int % v4_size(net) as int
}

/// The host addresses of an IPv4 network: all of them where it holds at most
/// two, otherwise all but the first and the last.
pub open spec fn v4_host_addrs(net: Ipv4Net) -> Seq<u32> {
    if net.prefix_len < 31 {
        Seq::new((v4_size(net) - 2) as nat, |i: int| (v4_network(net) + 1 + i) as u32)
    } else {
        Seq::new(v4_size(net), |i: int| (v4_network(net) + i) as u32)
    }
}

/// How many addresses an IPv6 network holds.
pub open spec fn v6_size(net: Ipv6Net) -> nat {
    pow2((128 - net.prefix_len) as nat)
}

/// The first address of an IPv6 network.
pub open spec fn v6_network(net: Ipv6Net) -> int {
    net.addr.bits as int - net.addr.bits as int % v6_size(net) as int
}

/// The host addresses of an IPv6 network: all of them.
pub open spec fn v6_host_addrs(net: Ipv6Net) -> Seq<u128> {
    Seq::new(v6_size(net), |i: int| (v6_network(net) + i) as u128)
}

/// `ipnet::Ipv4Net::hosts` iterates over the host addresses of the network from
/// the lowest to the highest; the first and the last address of the network are
/// left out where the prefix is shorter than 31.
#[verifier::external_body]
pub(crate) fn v4_hosts(net: Ipv4Net) -> (r: ipnet::Ipv4AddrRange)
    requires
        net.wf(),
    ensures
        v4_left(r) == v4_host_addrs(net),
{
    ipnet::Ipv4Net::new_assert(net.addr.bits.into(), net.prefix_len).hosts()
}

/// `ipnet::Ipv6Net::hosts` iterates over all addresses of the network from the
/// lowest to the highest.
#[verifier::external_body]
pub(crate) fn v6_hosts(net: Ipv6Net) -> (r: ipnet::Ipv6AddrRange)
    requires
        net.wf(),
    ensures
        v6_left(r) == v6_host_addrs(net),
{
    ipnet::Ipv6Net::new_assert(net.addr.bits.into(), net.prefix_len).hosts()
}

/// `next` on `ipnet::Ipv4AddrRange` hands out the first address that is left,
/// and `None` for good once none is.
#[verifier::external_body]
pub(crate) fn v4_next(range: &mut ipnet::Ipv4AddrRange) -> (r: Option<Ipv4Addr>)
    ensures
        v4_left(*old(range)).len() == 0 ==> r is None && v4_left(*final(range)) == v4_left(
            *old(range),
        ),
        v4_left(*old(range)).len() > 0 ==> r == Some(Ipv4Addr { bits: v4_left(*old(range))[0] })
            && v4_left(*final(range)) == v4_left(*old(range)).drop_first(),
{
    range.next().map(|addr| Ipv4Addr { bits: addr.into() })
}

/// `next` on `ipnet::Ipv6AddrRange` hands out the first address that is left,
/// and `None` for good once none is.
#[verifier::external_body]
pub(crate) fn v6_next(range: &mut ipnet::Ipv6AddrRange) -> (r: Option<Ipv6Addr>)
    ensures
        v6_left(*old(range)).len() == 0 ==> r is None && v6_left(*final(range)) == v6_left(
            *old(range),
        ),
        v6_left(*old(range)).len() > 0 ==> r == Some(Ipv6Addr { bits: v6_left(*old(range))[0] })
            && v6_left(*final(range)) == v6_left(*old(range)).drop_first(),
{
    range.next().map(|addr| Ipv6Addr { bits: addr.into() })
}

impl Ipv6Addr {
    /// The address lies in `fe80::/10`: its ten leading bits are `1111111010`.
    pub open spec fn link_local(self) -> bool {
        self.bits / 0x40_0000_0000_0000_0000_0000_0000_0000 == 0x3fa
    }

    /// Whether the address is a link-local unicast address.
    pub fn is_link_local(&self) -> (r: bool)
        ensures
            r == self.link_local(),
    {
        let bits: u128 = self.bits;
        let first: u16 = (bits >> 112) as u16;
        assert(((bits >> 112) as u16 & 0xffc0u16 == 0xfe80u16) == (bits
            / 0x40_0000_0000_0000_0000_0000_0000_0000u128 == 0x3fau128)) by (bit_vector);
        (first & 0xffc0) == 0xfe80
    }

    /// The IPv4 address that `::ffff:a.b.c.d` stands for.
    pub open spec fn v4_mapped(self) -> Option<Ipv4Addr> {
        if self.bits / 0x1_0000_0000 == 0xffff {
            Some(Ipv4Addr { bits: (self.bits % 0x1_0000_0000) as u32 })
        } else {
            None
        }
    }

    /// The IPv4 address, where this is an IPv4-mapped one.
    pub fn to_ipv4_mapped(&self) -> (r: Option<Ipv4Addr>)
        ensures
            r == self.v4_mapped(),
    {
        if self.bits / 0x1_0000_0000 == 0xffff {
            Some(Ipv4Addr { bits: (self.bits % 0x1_0000_0000) as u32 })
        } else {
            None
        }
    }
}

/// A prefix length is accepted up to that of a single address, and then kept with
/// its address as given.
pub proof fn law_checked_networks(v4: Ipv4Addr, v6: Ipv6Addr, prefix_len: u8)
    ensures
        v4_checked(v4, prefix_len) is Ok <==> prefix_len <= 32,
        v4_checked(v4, prefix_len) is Ok ==> v4_checked(v4, prefix_len)->Ok_0.addr == v4
            && v4_checked(v4, prefix_len)->Ok_0.prefix_len == prefix_len,
        v6_checked(v6, prefix_len) is Ok <==> prefix_len <= 128,
        v6_checked(v6, prefix_len) is Ok ==> v6_checked(v6, prefix_len)->Ok_0.addr == v6
            && v6_checked(v6, prefix_len)->Ok_0.prefix_len == prefix_len,
{
}

/// A network has the address and the length that it was made of.
pub proof fn law_network_parts(v4: Ipv4Net, v6: Ipv6Net)
    ensures
        IpNet::V4(v4).spec_addr() == IpAddr::V4(v4.addr),
        IpNet::V6(v6).spec_addr() == IpAddr::V6(v6.addr),
        IpNet::V4(v4).spec_prefix_len() == v4.prefix_len,
        IpNet::V6(v6).spec_prefix_len() == v6.prefix_len,
        IpNet::V4(v4).wf() <==> v4.prefix_len <= 32,
        IpNet::V6(v6).wf() <==> v6.prefix_len <= 128,
{
}

/// The IPv4-mapped addresses are those from `::ffff:0.0.0.0` to
/// `::ffff:255.255.255.255`, each standing for the IPv4 address in its last 32 bits.
pub proof fn law_mapped_range(addr: Ipv6Addr)
    ensures
        addr.v4_mapped() is Some <==> 0xffff_0000_0000 <= addr.bits <= 0xffff_ffff_ffff,
        addr.v4_mapped() is Some ==> addr.v4_mapped()->0.bits + 0xffff_0000_0000 == addr.bits,
{
}

/// The link-local addresses are those from `fe80::` to the last one that begins
/// with `febf`.
pub proof fn law_link_local_range(addr: Ipv6Addr)
    ensures
        addr.link_local() <==> 0xfe80_0000_0000_0000_0000_0000_0000_0000 <= addr.bits
            <= 0xfebf_ffff_ffff_ffff_ffff_ffff_ffff_ffff,
{
}

/// The text of an IPv4 address is its four octets in decimal, the most significant
/// first, with dots between them.
pub proof fn law_v4_text_is_four_octets(a: u8, b: u8, c: u8, d: u8)
    ensures
        v4_text((a * 0x1000000 + b * 0x10000 + c * 0x100 + d) as u32) == decimal(a as nat) + seq!['.']
            + decimal(b as nat) + seq!['.'] + decimal(c as nat) + seq!['.'] + decimal(d as nat),
{
    let bits = (a * 0x1000000 + b * 0x10000 + c * 0x100 + d) as u32;
    assert(bits / 0x1000000 == a);
    assert(bits / 0x10000 % 0x100 == b);
    assert(bits / 0x100 % 0x100 == c);
    assert(bits % 0x100 == d);
}

/// The text of a network is that of its address, a slash and its prefix length.
pub proof fn law_net_text_parts(v4: Ipv4Net, v6: Ipv6Net)
    ensures
        net_text(IpNet::V4(v4)) == v4_text(v4.addr.bits) + seq!['/'] + decimal(
            v4.prefix_len as nat,
        ),
        net_text(IpNet::V6(v6)) == v6_text(v6.addr.bits) + seq!['/'] + decimal(
            v6.prefix_len as nat,
        ),
        addr_text(IpAddr::V4(v4.addr)) == v4_text(v4.addr.bits),
        addr_text(IpAddr::V6(v6.addr)) == v6_text(v6.addr.bits),
{
}

/// The address of a network lies in it: between its first address, which is a
/// multiple of its size, and the last.
pub proof fn law_network_bounds(v4: Ipv4Net, v6: Ipv6Net)
    requires
        v4.prefix_len <= 32,
        v6.prefix_len <= 128,
    ensures
        v4_size(v4) == pow2((32 - v4.prefix_len) as nat),
        0 <= v4_network(v4) <= v4.addr.bits < v4_network(v4) + v4_size(v4),
        v4_network(v4) % (v4_size(v4) as int) == 0,
        v6_size(v6) == pow2((128 - v6.prefix_len) as nat),
        0 <= v6_network(v6) <= v6.addr.bits < v6_network(v6) + v6_size(v6),
        v6_network(v6) % (v6_size(v6) as int) == 0,
{
    vstd::arithmetic::power2::lemma_pow2_pos((32 - v4.prefix_len) as nat);
    vstd::arithmetic::power2::lemma_pow2_pos((128 - v6.prefix_len) as nat);
    lemma_rounded_down(v4.addr.bits as int, v4_size(v4) as int);
    lemma_rounded_down(v6.addr.bits as int, v6_size(v6) as int);
}

proof fn lemma_rounded_down(x: int, n: int)
    requires
        x >= 0,
        n > 0,
    ensures
        0 <= x - x % n <= x < x - x % n + n,
        (x - x % n) % n == 0,
{
    vstd::arithmetic::div_mod::lemma_fundamental_div_mod(x, n);
    vstd::arithmetic::div_mod::lemma_mod_multiples_basic(x / n, n);
    assert(x - x % n == (x / n) * n) by (nonlinear_arith)
        requires
            x == n * (x / n) + x % n,
    ;
    assert(0 <= (x / n) * n) by (nonlinear_arith)
        requires
            x >= 0,
            n > 0,
    ;
}

/// The hosts of a network, one after the other: all its addresses, but for the
/// first and the last of an IPv4 network that has more than two.
pub proof fn law_hosts_are_the_addresses(v4: Ipv4Net, v6: Ipv6Net)
    ensures
        v4.prefix_len < 31 ==> v4_host_addrs(v4).len() == (v4_size(v4) - 2) as nat,
        v4.prefix_len < 31 ==> forall|i: int|
            0 <= i < v4_host_addrs(v4).len() ==> #[trigger] v4_host_addrs(v4)[i] == (v4_network(v4) + 1
                + i) as u32,
        v4.prefix_len >= 31 ==> v4_host_addrs(v4).len() == v4_size(v4),
        v4.prefix_len >= 31 ==> forall|i: int|
            0 <= i < v4_host_addrs(v4).len() ==> #[trigger] v4_host_addrs(v4)[i] == (v4_network(v4)
                + i) as u32,
        v6_host_addrs(v6).len() == v6_size(v6),
        forall|i: int|
            0 <= i < v6_host_addrs(v6).len() ==> #[trigger] v6_host_addrs(v6)[i] == (v6_network(v6)
                + i) as u128,
{
}

} // verus!
