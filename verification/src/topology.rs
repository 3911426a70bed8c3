//! Networks of namespaces: the links between them, the routers on them, and the
//! addresses and sessions that follow.

use vstd::arithmetic::power2::{
    lemma2_to64, lemma_pow2_adds, lemma_pow2_pos, lemma_pow2_strictly_increases, pow2,
};
use vstd::prelude::*;
use vstd::string::StringExecFns;

use crate::bird::config::{plain_peer, Neighbour, Peer, PeerView};
use crate::bird::daemon::{Bird, BirdView};
use crate::net::{
    v4_host_addrs, v4_hosts, v4_left, v4_network, v4_next, v6_host_addrs, v6_hosts,
    v6_left, v6_network, v6_next, v6_size, v6_text, IpAddr, IpNet, Ipv4Net, Ipv6Addr, Ipv6Net,
};
use crate::ns::{random_id, Ns, NsView};
use crate::text::{decimal, decimal_text, hex4, hex4_text, joined, views, words};

verus! {

/// The router ids that are still to be given out.
#[derive(Clone, Copy, Debug, PartialEq, Eq, Structural)]
pub struct RouterIds {
    pub next: u32,
}

/// The successor of a number, zero behind the largest.
pub open spec fn successor(n: u32) -> u32 {
    if n == u32::MAX {
        0
    } else {
        (n + 1) as u32
    }
}

impl RouterIds {
    /// None has been given out.
    pub fn new() -> (r: RouterIds)
        ensures
            r.next == 1,
    {
        RouterIds { next: 1 }
    }

    /// Gives out a router id.
    pub fn next_router_id(&mut self) -> (r: u32)
        ensures
            r == old(self).next,
            final(self).next == successor(old(self).next),
    {
        let id: u32 = self.next;
        self.next = if id == u32::MAX {
            0
        } else {
            id + 1
        };
        id
    }
}

/// The links between routers that are still to be given out.
#[derive(Clone, Copy, Debug, PartialEq, Eq, Structural)]
pub struct LinkIds {
    pub next: u32,
}

/// No link between routers is left.
#[derive(Clone, Copy, Debug, PartialEq, Eq, Structural)]
pub struct LinksExhausted;

/// The number of the address `3fff:ffff:segment::host`.
pub open spec fn link_addr(segment: int, host: int) -> int {
    0x3fff_ffff_0000_0000_0000_0000_0000_0000 + segment * 0x1_0000_0000_0000_0000_0000 + host
}

/// The two ends of link `segment`, each with the prefix length of the link.
pub open spec fn link_ends(segment: u16) -> (Ipv6Net, Ipv6Net) {
    (
        Ipv6Net {
            addr: Ipv6Addr { bits: link_addr(segment as int, 1) as u128 },
            prefix_len: 64,
        },
        Ipv6Net {
            addr: Ipv6Addr { bits: link_addr(segment as int, 2) as u128 },
            prefix_len: 64,
        },
    )
}

/// The ends of the link with the given number, where there is one.
pub open spec fn link_with(number: u32) -> Option<(Ipv6Net, Ipv6Net)> {
    if number <= 0xffff {
        Some(link_ends(number as u16))
    } else {
        None
    }
}

impl LinkIds {
    /// None has been given out.
    pub fn new() -> (r: LinkIds)
        ensures
            r.next == 1,
    {
        LinkIds { next: 1 }
    }

    /// Gives out the two ends of a link.
    pub fn next_interrouter_v6_link(&mut self) -> (r: Result<(Ipv6Net, Ipv6Net), LinksExhausted>)
        ensures
            final(self).next == successor(old(self).next),
            match r {
                Ok(ends) => old(self).next <= 0xffff && ends == link_ends(old(self).next as u16),
                Err(_) => old(self).next > 0xffff,
            },
            r is Ok <==> link_with(old(self).next) is Some,
            r is Ok ==> r->Ok_0 == link_with(old(self).next)->0,
    {
        let id: u32 = self.next;
        self.next = if id == u32::MAX {
            0
        } else {
            id + 1
        };
        if id > 0xffff {
            return Err(LinksExhausted);
        }
        let base: u128 = 0x3fff_ffff_0000_0000_0000_0000_0000_0000 + id as u128
            * 0x1_0000_0000_0000_0000_0000;
        let local = Ipv6Addr { bits: base + 1 };
        let peer = Ipv6Addr { bits: base + 2 };
        match (Ipv6Net::new(local, 64), Ipv6Net::new(peer, 64)) {
            (Ok(local), Ok(peer)) => Ok((local, peer)),
            _ => Err(LinksExhausted),
        }
    }
}

/// The networks of two links do not overlap, and the two ends of a link are in
/// one network.
pub proof fn law_links_are_apart(a: u16, b: u16)
    ensures
        v6_network(link_ends(a).0) == v6_network(link_ends(a).1) == link_addr(a as int, 0),
        link_ends(a).0 != link_ends(a).1,
        a < b ==> v6_network(link_ends(a).0) + v6_size(link_ends(a).0) <= v6_network(
            link_ends(b).0,
        ),
{
    assert(pow2(64) == 0x1_0000_0000_0000_0000) by {
        lemma2_to64();
    }
    lemma_link_network(a);
    lemma_link_network(b);
}

proof fn lemma_link_network(a: u16)
    requires
        pow2(64) == 0x1_0000_0000_0000_0000,
    ensures
        v6_network(link_ends(a).0) == link_addr(a as int, 0),
        v6_network(link_ends(a).1) == link_addr(a as int, 0),
        v6_size(link_ends(a).0) == 0x1_0000_0000_0000_0000,
{
    let size: int = 0x1_0000_0000_0000_0000;
    let base = link_addr(a as int, 0);
    let q: int = 0x3fff_ffff_0000_0000 + a as int * 0x1_0000;
    assert(base == q * size);
    assert(0 <= base + 2 <= u128::MAX);
    assert((base + 1) % size == 1) by (nonlinear_arith)
        requires
            base == q * size,
            size == 0x1_0000_0000_0000_0000,
    ;
    assert((base + 2) % size == 2) by (nonlinear_arith)
        requires
            base == q * size,
            size == 0x1_0000_0000_0000_0000,
    ;
}

/// The name of a bridge that is told apart by a number.
pub open spec fn bridge_name_of(id: u16) -> Seq<char> {
    "br"@ + hex4(id)
}

/// The names of the ends of a veth pair that is told apart by a number.
pub open spec fn veth_names_of(id: u16) -> (Seq<char>, Seq<char>) {
    ("veth"@ + hex4(id), "peer"@ + hex4(id))
}

/// A bridge inside a namespace.
#[derive(Debug)]
pub struct Bridge {
    /// Namespace the bridge lives in.
    pub ns: Ns,
    /// Interface name (e.g. "br04a1").
    pub name: String,
    /// IPv6 link-local address assigned to the bridge.
    pub link_local: Ipv6Addr,
}

/// A [`Bridge`] over sequences.
#[verifier::ext_equal]
pub struct BridgeView {
    pub ns: NsView,
    pub name: Seq<char>,
    pub link_local: Ipv6Addr,
}

impl View for Bridge {
    type V = BridgeView;

    open spec fn view(&self) -> BridgeView {
        BridgeView { ns: self.ns@, name: self.name@, link_local: self.link_local }
    }
}

impl Clone for Bridge {
    fn clone(&self) -> (r: Bridge)
        ensures
            r@ == self@,
    {
        Bridge {
            ns: self.ns.clone(),
            name: self.name.as_str().to_owned(),
            link_local: self.link_local,
        }
    }
}

impl Bridge {
    /// The name of a bridge that is told apart by the given number.
    pub fn name_with_id(id: u16) -> (r: String)
        ensures
            r@ == bridge_name_of(id),
    {
        joined("br", hex4_text(id).as_str())
    }

    /// A name for a bridge, told apart by a random number.
    pub fn random_name() -> (r: String)
        ensures
            exists|id: u16| r@ == #[trigger] bridge_name_of(id),
    {
        Bridge::name_with_id(random_id())
    }

    /// The links whose MTU is set together with that of the bridge: the bridge,
    /// and all its current ports.
    pub fn mtu_links(&self, ports: Vec<String>) -> (r: Vec<String>)
        ensures
            views(r@) == seq![self.name@] + views(ports@),
    {
        let mut out: Vec<String> = Vec::new();
        out.push(self.name.as_str().to_owned());
        let mut rest = ports;
        out.append(&mut rest);
        assert(views(out@) =~= seq![self.name@] + views(ports@));
        out
    }
}

/// Where to place one end of a veth pair and how to configure it.
#[derive(Debug)]
pub enum VethPlacement {
    /// Move into the namespace and assign the given CIDR.
    Addr(Ns, IpNet),
    /// Move into the namespace with no address assigned. The end still receives
    /// an IPv6 link-local address.
    Bare(Ns),
    /// Attach as a port on the given bridge.
    BridgePort(Bridge),
}

/// One step of placing the end of a veth pair.
#[derive(Debug)]
pub enum EndStep {
    /// Move it into the namespace of a process.
    MoveToNs(i32),
    /// Assign an address.
    AddAddr(IpNet),
    /// Make it a port of the bridge with the given name.
    JoinBridge(String),
    /// Bring it up.
    SetUp,
}

/// An [`EndStep`] over sequences.
pub enum EndStepView {
    MoveToNs(i32),
    AddAddr(IpNet),
    JoinBridge(Seq<char>),
    SetUp,
}

impl View for EndStep {
    type V = EndStepView;

    open spec fn view(&self) -> EndStepView {
        match self {
            EndStep::MoveToNs(pid) => EndStepView::MoveToNs(*pid),
            EndStep::AddAddr(addr) => EndStepView::AddAddr(*addr),
            EndStep::JoinBridge(name) => EndStepView::JoinBridge(name@),
            EndStep::SetUp => EndStepView::SetUp,
        }
    }
}

impl VethPlacement {
    /// The namespace of the end.
    pub open spec fn ns_view(self) -> NsView {
        match self {
            VethPlacement::Addr(ns, _) => ns@,
            VethPlacement::Bare(ns) => ns@,
            VethPlacement::BridgePort(bridge) => bridge.ns@,
        }
    }

    /// The steps of placing the end: it comes up last, once it has its address
    /// or is a port.
    pub open spec fn steps(self) -> Seq<EndStepView> {
        let pid = self.ns_view().pid;
        match self {
            VethPlacement::Addr(_, addr) => seq![
                EndStepView::MoveToNs(pid),
                EndStepView::AddAddr(addr),
                EndStepView::SetUp,
            ],
            VethPlacement::Bare(_) => seq![EndStepView::MoveToNs(pid), EndStepView::SetUp],
            VethPlacement::BridgePort(bridge) => seq![
                EndStepView::MoveToNs(pid),
                EndStepView::JoinBridge(bridge.name@),
                EndStepView::SetUp,
            ],
        }
    }

    /// The namespace this end will be moved into.
    pub fn ns(&self) -> (r: &Ns)
        ensures
            r@ == self.ns_view(),
    {
        match self {
            VethPlacement::Addr(ns, _) => ns,
            VethPlacement::Bare(ns) => ns,
            VethPlacement::BridgePort(bridge) => &bridge.ns,
        }
    }

    /// The steps of placing this end.
    pub fn setup_end(&self) -> (r: Vec<EndStep>)
        ensures
            r@.map_values(|s: EndStep| s@) == self.steps(),
    {
        let mut out: Vec<EndStep> = Vec::new();
        out.push(EndStep::MoveToNs(self.ns().pid()));
        match self {
            VethPlacement::Addr(_, addr) => out.push(EndStep::AddAddr(*addr)),
            VethPlacement::Bare(_) => {},
            VethPlacement::BridgePort(bridge) => out.push(
                EndStep::JoinBridge(bridge.name.as_str().to_owned()),
            ),
        }
        out.push(EndStep::SetUp);
        assert(out@.map_values(|s: EndStep| s@) =~= self.steps());
        out
    }
}

/// One end of a veth pair.
#[derive(Debug)]
pub struct VethEnd {
    /// Namespace this end was moved into.
    pub ns: Ns,
    /// Interface name (e.g. "veth04a1" or "peer04a1"). Where this end is a bridge
    /// port, this is the bridge's name, since bridge ports have no independent
    /// L3 identity.
    pub name: String,
    /// IPv6 link-local address. Where this end is a bridge port, this is the
    /// bridge's, since bridge ports have no independent L3 identity.
    pub link_local: Ipv6Addr,
}

/// A [`VethEnd`] over sequences.
#[verifier::ext_equal]
pub struct VethEndView {
    pub ns: NsView,
    pub name: Seq<char>,
    pub link_local: Ipv6Addr,
}

impl View for VethEnd {
    type V = VethEndView;

    open spec fn view(&self) -> VethEndView {
        VethEndView { ns: self.ns@, name: self.name@, link_local: self.link_local }
    }
}

/// What an end is known by, given the name of the interface and the address that
/// it got.
pub open spec fn end_of(placement: VethPlacement, name: Seq<char>, addr: Ipv6Addr) -> VethEndView {
    match placement {
        VethPlacement::BridgePort(bridge) => VethEndView {
            ns: bridge.ns@,
            name: bridge.name@,
            link_local: bridge.link_local,
        },
        _ => VethEndView { ns: placement.ns_view(), name, link_local: addr },
    }
}

impl VethEnd {
    /// The end with the given placement, interface name and link-local address.
    pub fn new(placement: &VethPlacement, name: String, addr: Ipv6Addr) -> (r: VethEnd)
        ensures
            r@ == end_of(*placement, name@, addr),
    {
        match placement {
            VethPlacement::BridgePort(bridge) => VethEnd {
                ns: bridge.ns.clone(),
                name: bridge.name.as_str().to_owned(),
                link_local: bridge.link_local,
            },
            _ => VethEnd { ns: placement.ns().clone(), name, link_local: addr },
        }
    }
}

/// How a link is made worse than it is.
#[derive(Clone, Copy, Debug, PartialEq, Eq, Structural)]
pub struct LinkImpairment {
    pub delay_ms: u32,
    pub rate_kbit: u32,
}

/// The arguments of `tc` that impair a link: a scheduler, a class that limits
/// the rate in kilobits per second, and a delay behind it.
pub open spec fn impair_args(name: Seq<char>, impairment: LinkImpairment) -> Seq<Seq<Seq<char>>> {
    seq![
        seq![
            "qdisc"@,
            "replace"@,
            "dev"@,
            name,
            "root"@,
            "handle"@,
            "1:"@,
            "htb"@,
            "default"@,
            "2"@,
        ],
        seq![
            "class"@,
            "replace"@,
            "dev"@,
            name,
            "parent"@,
            "1:"@,
            "classid"@,
            "1:2"@,
            "htb"@,
            "rate"@,
            decimal(impairment.rate_kbit as nat) + "kbit"@,
        ],
        seq![
            "qdisc"@,
            "replace"@,
            "dev"@,
            name,
            "parent"@,
            "1:2"@,
            "handle"@,
            "10:"@,
            "netem"@,
            "delay"@,
            decimal(impairment.delay_ms as nat) + "ms"@,
        ],
    ]
}

/// The arguments of `tc` that only delay a link.
pub open spec fn latency_args(name: Seq<char>, delay_ms: u32) -> Seq<Seq<char>> {
    seq![
        "qdisc"@,
        "replace"@,
        "dev"@,
        name,
        "root"@,
        "netem"@,
        "delay"@,
        decimal(delay_ms as nat) + "ms"@,
    ]
}

/// The views of lists of strings.
pub open spec fn list_views(list: Seq<Vec<String>>) -> Seq<Seq<Seq<char>>> {
    list.map_values(|v: Vec<String>| views(v@))
}

impl VethEnd {
    /// The commands of `tc` that impair the link, in order.
    pub fn impair(&self, impairment: LinkImpairment) -> (r: Vec<Vec<String>>)
        ensures
            list_views(r@) == impair_args(self.name@, impairment),
    {
        // tc uses kbit for kilobits and kbps for kilobytes.
        let rate = joined(decimal_text(impairment.rate_kbit as u64).as_str(), "kbit");
        let delay = joined(decimal_text(impairment.delay_ms as u64).as_str(), "ms");
        let name = self.name.as_str();
        let scheduler = words(
            &vec!["qdisc", "replace", "dev", name, "root", "handle", "1:", "htb", "default", "2"],
        );
        assert(views(scheduler@) =~= impair_args(self.name@, impairment)[0]);
        let class = words(
            &vec![
                "class",
                "replace",
                "dev",
                name,
                "parent",
                "1:",
                "classid",
                "1:2",
                "htb",
                "rate",
                rate.as_str(),
            ],
        );
        assert(views(class@) =~= impair_args(self.name@, impairment)[1]);
        let netem = words(
            &vec![
                "qdisc",
                "replace",
                "dev",
                name,
                "parent",
                "1:2",
                "handle",
                "10:",
                "netem",
                "delay",
                delay.as_str(),
            ],
        );
        assert(views(netem@) =~= impair_args(self.name@, impairment)[2]);
        let r = vec![scheduler, class, netem];
        assert(list_views(r@) =~= impair_args(self.name@, impairment));
        r
    }

    /// The command of `tc` that only delays the link.
    pub fn impair_latency(&self, delay_ms: u32) -> (r: Vec<String>)
        ensures
            views(r@) == latency_args(self.name@, delay_ms),
    {
        let delay = joined(decimal_text(delay_ms as u64).as_str(), "ms");
        let r = words(
            &vec![
                "qdisc",
                "replace",
                "dev",
                self.name.as_str(),
                "root",
                "netem",
                "delay",
                delay.as_str(),
            ],
        );
        assert(views(r@) =~= latency_args(self.name@, delay_ms));
        r
    }
}

/// An IPv6 link-local address with its scope interface.
#[derive(Debug)]
pub struct ScopedAddr {
    pub addr: Ipv6Addr,
    pub interface: String,
}

impl ScopedAddr {
    /// The address, a percent sign and the interface.
    pub fn to_text(&self) -> (r: String)
        ensures
            r@ == v6_text(self.addr.bits) + "%"@ + self.interface@,
    {
        let mut out = IpAddr::V6(self.addr).to_text();
        out.append("%");
        out.append(self.interface.as_str());
        out
    }
}

/// A connected veth pair spanning two namespaces.
#[derive(Debug)]
pub struct VethPair {
    /// The first end, typically the initiating side.
    pub device: VethEnd,
    /// The second end, typically the remote side.
    pub peer: VethEnd,
}

impl VethPair {
    /// The names of the ends of a pair that is told apart by the given number.
    pub fn names_with_id(id: u16) -> (r: (String, String))
        ensures
            (r.0@, r.1@) == veth_names_of(id),
    {
        let digits = hex4_text(id);
        (joined("veth", digits.as_str()), joined("peer", digits.as_str()))
    }

    /// Names for the ends of a pair, told apart by a random number.
    pub fn random_names() -> (r: (String, String))
        ensures
            exists|id: u16| (r.0@, r.1@) == #[trigger] veth_names_of(id),
    {
        VethPair::names_with_id(random_id())
    }

    /// The pair whose ends have been placed, with the interface names and the
    /// link-local addresses that they got.
    pub fn new(
        device: &VethPlacement,
        peer: &VethPlacement,
        names: (String, String),
        addrs: (Ipv6Addr, Ipv6Addr),
    ) -> (r: VethPair)
        ensures
            r.device@ == end_of(*device, names.0@, addrs.0),
            r.peer@ == end_of(*peer, names.1@, addrs.1),
    {
        let (device_name, peer_name) = names;
        VethPair {
            device: VethEnd::new(device, device_name, addrs.0),
            peer: VethEnd::new(peer, peer_name, addrs.1),
        }
    }

    /// Scoped address of the peer, from the device side.
    pub fn peer_addr(&self) -> (r: ScopedAddr)
        ensures
            r.addr == self.peer.link_local,
            r.interface@ == self.device.name@,
    {
        ScopedAddr {
            addr: self.peer.link_local,
            interface: self.device.name.as_str().to_owned(),
        }
    }

    /// Scoped address of the device, from the peer side.
    pub fn device_addr(&self) -> (r: ScopedAddr)
        ensures
            r.addr == self.device.link_local,
            r.interface@ == self.peer.name@,
    {
        ScopedAddr {
            addr: self.device.link_local,
            interface: self.peer.name.as_str().to_owned(),
        }
    }
}

/// A subnet has no address left.
#[derive(Clone, Copy, Debug, PartialEq, Eq, Structural)]
pub enum SubnetError {
    Ipv4Exhausted,
    Ipv6Exhausted,
}

/// The addresses that servers behind a router are still to be given.
pub struct RouterInterface {
    /// L2 switch for packets on this interface.
    pub bridge: Bridge,
    /// Subnet used to allocate IPv4 addresses.
    pub hosts_v4: ipnet::Ipv4AddrRange,
    /// Subnet used to allocate IPv6 addresses.
    pub hosts_v6: ipnet::Ipv6AddrRange,
}

/// The IPv6 host addresses of a subnet but the first, so that the numbering
/// begins at 1, as it does for IPv4.
pub open spec fn numbered_v6_hosts(net: Ipv6Net) -> Seq<u128> {
    v6_host_addrs(net).drop_first()
}

impl RouterInterface {
    /// All addresses of the subnets are still to be given.
    pub fn new(bridge: Bridge, v4_subnet: Ipv4Net, v6_subnet: Ipv6Net) -> (r: RouterInterface)
        requires
            v4_subnet.wf(),
            v6_subnet.wf(),
        ensures
            r.bridge@ == bridge@,
            v4_left(r.hosts_v4) == v4_host_addrs(v4_subnet),
            v6_left(r.hosts_v6) == numbered_v6_hosts(v6_subnet),
    {
        let mut hosts_v6 = v6_hosts(v6_subnet);
        let _ = v6_next(&mut hosts_v6);
        proof {
            lemma_pow2_pos((128 - v6_subnet.prefix_len) as nat);
        }
        RouterInterface { bridge, hosts_v4: v4_hosts(v4_subnet), hosts_v6 }
    }

    /// The next IPv4 and the next IPv6 address, each as a network of its own. An
    /// IPv4 address is spent even where no IPv6 address is left.
    pub fn next_sitelocals(&mut self) -> (r: Result<(Ipv4Net, Ipv6Net), SubnetError>)
        ensures
            final(self).bridge@ == old(self).bridge@,
            match r {
                Ok((v4, v6)) => {
                    &&& v4_left(old(self).hosts_v4).len() > 0
                    &&& v6_left(old(self).hosts_v6).len() > 0
                    &&& v4.addr.bits == v4_left(old(self).hosts_v4)[0] && v4.prefix_len == 32
                    &&& v6.addr.bits == v6_left(old(self).hosts_v6)[0] && v6.prefix_len == 128
                    &&& v4_left(final(self).hosts_v4) == v4_left(old(self).hosts_v4).drop_first()
                    &&& v6_left(final(self).hosts_v6) == v6_left(old(self).hosts_v6).drop_first()
                },
                Err(SubnetError::Ipv4Exhausted) => {
                    &&& v4_left(old(self).hosts_v4).len() == 0
                    &&& v4_left(final(self).hosts_v4) == v4_left(old(self).hosts_v4)
                    &&& v6_left(final(self).hosts_v6) == v6_left(old(self).hosts_v6)
                },
                Err(SubnetError::Ipv6Exhausted) => {
                    &&& v4_left(old(self).hosts_v4).len() > 0
                    &&& v6_left(old(self).hosts_v6).len() == 0
                    &&& v4_left(final(self).hosts_v4) == v4_left(old(self).hosts_v4).drop_first()
                    &&& v6_left(final(self).hosts_v6) == v6_left(old(self).hosts_v6)
                },
            },
    {
        let v4 = match v4_next(&mut self.hosts_v4) {
            Some(addr) => addr,
            None => {
                return Err(SubnetError::Ipv4Exhausted);
            },
        };
        let v6 = match v6_next(&mut self.hosts_v6) {
            Some(addr) => addr,
            None => {
                return Err(SubnetError::Ipv6Exhausted);
            },
        };
        match (Ipv4Net::new(v4, 32), Ipv6Net::new(v6, 128)) {
            (Ok(v4), Ok(v6)) => Ok((v4, v6)),
            _ => Err(SubnetError::Ipv4Exhausted),
        }
    }
}

/// The servers behind a router are numbered from 1 in both families: the address
/// that is given out after `i` others is that of its network plus `i + 1`.
pub proof fn law_metals_are_numbered(v4: Ipv4Net, v6: Ipv6Net, i: int)
    requires
        v4.prefix_len < 31,
        v6.wf(),
        0 <= i < v4_host_addrs(v4).len(),
        i < numbered_v6_hosts(v6).len(),
    ensures
        v4_host_addrs(v4)[i] == v4_network(v4) + 1 + i,
        numbered_v6_hosts(v6)[i] == v6_network(v6) + 1 + i,
{
    let n4 = (32 - v4.prefix_len) as nat;
    let n6 = (128 - v6.prefix_len) as nat;
    lemma_pow2_pos(n4);
    lemma_pow2_pos(n6);
    assert(pow2(32) == 0x1_0000_0000 && pow2(1) == 2) by {
        lemma2_to64();
    }
    lemma_pow2_128();
    lemma_pow2_strictly_increases(1, n4);
    lemma_network_end(v4.addr.bits as int, n4, 32);
    lemma_network_end(v6.addr.bits as int, n6, 128);
}

proof fn lemma_pow2_128()
    ensures
        pow2(128) == u128::MAX + 1,
{
    lemma2_to64();
    lemma_pow2_adds(64, 64);
}

/// A network of `2^n` addresses ends before `2^width`.
proof fn lemma_network_end(bits: int, n: nat, width: nat)
    requires
        n <= width,
        0 <= bits < pow2(width),
    ensures
        bits - bits % pow2(n) as int + pow2(n) <= pow2(width),
        0 <= bits - bits % pow2(n) as int,
{
    lemma_pow2_pos(n);
    lemma_pow2_adds(n, (width - n) as nat);
    let (a, b) = (pow2(n) as int, pow2((width - n) as nat) as int);
    let q = bits / a;
    vstd::arithmetic::div_mod::lemma_fundamental_div_mod(bits, a);
    assert(q < b) by (nonlinear_arith)
        requires
            bits < a * b,
            bits == a * q + bits % a,
            bits % a >= 0,
            a > 0,
    ;
    assert(a * q + a <= a * b) by (nonlinear_arith)
        requires
            q + 1 <= b,
            a > 0,
    ;
    assert(a * q >= 0) by (nonlinear_arith)
        requires
            a > 0,
            bits >= 0,
            q == bits / a,
    ;
}

/// A BGP router running BIRD inside a network namespace.
pub struct Router<K> {
    /// Namespace the router runs in.
    pub ns: Ns,
    /// What its BIRD routing daemon is configured with.
    pub bird: Bird,
    /// Role-specific state.
    pub kind: K,
}

/// The session of a router with another one, over the address that the other has
/// on the link between them.
pub open spec fn router_session(name: Seq<char>, addr: Ipv6Addr, asn: u32) -> PeerView {
    PeerView {
        connect_delay_seconds: Some(1),
        ..plain_peer(name, Neighbour::Ip(IpAddr::V6(addr)), asn)
    }
}

/// Makes two routers peers over the ends of a link. They do so over global
/// addresses rather than link-local ones, whose interface scopes could not be
/// told to servers behind them.
pub fn peer<A, B>(a: &mut Router<A>, b: &mut Router<B>, a_addr: Ipv6Net, b_addr: Ipv6Net)
    ensures
        final(a).ns == old(a).ns,
        final(b).ns == old(b).ns,
        final(a).kind == old(a).kind,
        final(b).kind == old(b).kind,
        final(a).bird@ == (BirdView {
            peers: old(a).bird@.peers.push(
                router_session(old(b).ns@.display_name, b_addr.addr, old(b).bird.asn),
            ),
            ..old(a).bird@
        }),
        final(b).bird@ == (BirdView {
            peers: old(b).bird@.peers.push(
                router_session(old(a).ns@.display_name, a_addr.addr, old(a).bird.asn),
            ),
            ..old(b).bird@
        }),
{
    let peer_a = Peer::new(
        b.ns.display_name().to_owned(),
        Neighbour::from(b_addr.addr),
        b.bird.asn,
    ).connect_delay_seconds(1);
    let peer_b = Peer::new(
        a.ns.display_name().to_owned(),
        Neighbour::from(a_addr.addr),
        a.bird.asn,
    ).connect_delay_seconds(1);
    a.bird.add_peer(peer_a);
    b.bird.add_peer(peer_b);
}

/// A transit router in an external AS.
#[derive(Clone, Copy, Debug, PartialEq, Eq, Structural)]
pub struct Transit;

impl Router<Transit> {
    /// A router without sessions.
    pub fn new(ns: Ns, id: u32, asn: u32) -> (r: Router<Transit>)
        ensures
            r.ns == ns,
            r.bird@ == (BirdView {
                id,
                asn,
                routes_v4: Seq::empty(),
                routes_v6: Seq::empty(),
                peers: Seq::empty(),
            }),
    {
        Router { ns, bird: Bird::new(id, asn), kind: Transit }
    }
}

/// An edge router that bridges metals and provides them with upstream
/// connectivity via BGP.
pub struct Edge {
    /// Network segment where metals are connected.
    pub interface: RouterInterface,
}

/// The IPv6 link-local subnet, `fe80::/10`.
pub open spec fn link_local_v6() -> IpNet {
    IpNet::V6(
        Ipv6Net {
            addr: Ipv6Addr { bits: 0xfe80_0000_0000_0000_0000_0000_0000_0000 },
            prefix_len: 10,
        },
    )
}

/// The session of an edge with the BIRD of any server on the bridge: external
/// nexthops are replaced, since servers cannot reach them.
pub open spec fn metal_session(interface: Seq<char>, asn: u32) -> PeerView {
    PeerView {
        interface: Some(interface),
        next_hop_self: true,
        add_paths_tx: true,
        ..plain_peer("metal_bird"@, Neighbour::Range(link_local_v6()), asn)
    }
}

/// The session of an edge with a route reflector client on any server on the
/// bridge, at a port of its own: nexthops are kept as they are.
pub open spec fn client_session(
    interface: Seq<char>,
    asn: u32,
    client: (Seq<char>, u16),
) -> PeerView {
    PeerView {
        interface: Some(interface),
        add_paths_tx: true,
        next_hop_keep_ebgp: true,
        port: client.1,
        ..plain_peer("metal_"@ + client.0, Neighbour::Range(link_local_v6()), asn)
    }
}

/// The views of route reflector clients.
pub open spec fn client_views(list: Seq<(String, u16)>) -> Seq<(Seq<char>, u16)> {
    list.map_values(|c: (String, u16)| (c.0@, c.1))
}

/// The sessions of an edge, before it has peers upstream.
pub open spec fn edge_sessions(
    interface: Seq<char>,
    asn: u32,
    clients: Seq<(Seq<char>, u16)>,
) -> Seq<PeerView> {
    seq![metal_session(interface, asn)] + clients.map_values(
        |c: (Seq<char>, u16)| client_session(interface, asn, c),
    )
}

impl Router<Edge> {
    /// A router that takes sessions with servers on its bridge, and has all
    /// addresses of the subnets to give them.
    pub fn new(
        ns: Ns,
        id: u32,
        asn: u32,
        bridge: Bridge,
        v4_subnet: Ipv4Net,
        v6_subnet: Ipv6Net,
        rr_clients: &Vec<(String, u16)>,
    ) -> (r: Router<Edge>)
        requires
            v4_subnet.wf(),
            v6_subnet.wf(),
        ensures
            r.ns == ns,
            r.bird@ == (BirdView {
                id,
                asn,
                routes_v4: Seq::empty(),
                routes_v6: Seq::empty(),
                peers: edge_sessions(bridge.name@, asn, client_views(rr_clients@)),
            }),
            r.kind.interface.bridge@ == bridge@,
            v4_left(r.kind.interface.hosts_v4) == v4_host_addrs(v4_subnet),
            v6_left(r.kind.interface.hosts_v6) == numbered_v6_hosts(v6_subnet),
    {
        let ghost want = edge_sessions(bridge.name@, asn, client_views(rr_clients@));
        let range = IpNet::V6(
            Ipv6Net {
                addr: Ipv6Addr { bits: 0xfe80_0000_0000_0000_0000_0000_0000_0000 },
                prefix_len: 10,
            },
        );
        let mut bird = Bird::new(id, asn);
        let ghost empty = bird@;
        bird.add_peer(
            Peer::new("metal_bird".to_owned(), Neighbour::from(range), asn).interface(
                bridge.name.as_str().to_owned(),
            ).next_hop_self(true).add_paths_tx(true),
        );
        let mut i: usize = 0;
        assert(bird@.peers =~= want.take(1));
        while i < rr_clients.len()
            invariant
                i <= rr_clients@.len(),
                range == link_local_v6(),
                want == edge_sessions(bridge.name@, asn, client_views(rr_clients@)),
                bird@ == (BirdView { peers: want.take(i + 1), ..empty }),
            decreases rr_clients@.len() - i,
        {
            let name = joined("metal_", rr_clients[i].0.as_str());
            bird.add_peer(
                Peer::new(name, Neighbour::from(range), asn).interface(
                    bridge.name.as_str().to_owned(),
                ).add_paths_tx(true).next_hop_keep_ebgp(true).port(rr_clients[i].1),
            );
            proof {
                assert(client_views(rr_clients@)[i as int] == (
                    rr_clients@[i as int].0@,
                    rr_clients@[i as int].1,
                ));
                assert(want.take(i + 2) =~= want.take(i + 1).push(want[i + 1]));
            }
            i += 1;
        }
        assert(want.take(want.len() as int) =~= want);
        Router {
            ns,
            bird,
            kind: Edge { interface: RouterInterface::new(bridge, v4_subnet, v6_subnet) },
        }
    }

    /// A server on the bridge of the router, over the given link and with the
    /// given addresses. Its BIRD announces them to the router.
    pub fn add_metal(
        &self,
        ns: Ns,
        id: u32,
        link: &VethPair,
        sitelocal_v4: Ipv4Net,
        sitelocal_v6: Ipv6Net,
    ) -> (r: Metal)
        ensures
            r.ns == ns,
            r.sitelocal_v4 == sitelocal_v4,
            r.sitelocal_v6 == sitelocal_v6,
            r.uplink@ == link.device.name@,
            r.bird@ == (BirdView {
                id,
                asn: self.bird.asn,
                routes_v4: Seq::empty(),
                routes_v6: Seq::empty(),
                peers: seq![
                    (PeerView {
                        interface: Some(link.device.name@),
                        ..plain_peer(
                            "edge"@,
                            Neighbour::Ip(IpAddr::V6(link.peer.link_local)),
                            self.bird.asn,
                        )
                    }),
                ],
            }),
    {
        let edge_addr = link.peer_addr();
        let mut bird = Bird::new(id, self.bird.asn);
        bird.add_peer(
            Peer::new(
                "edge".to_owned(),
                Neighbour::from(edge_addr.addr),
                self.bird.asn,
            ).interface(edge_addr.interface),
        );
        Metal {
            ns,
            sitelocal_v4,
            sitelocal_v6,
            bird,
            uplink: link.device.name.as_str().to_owned(),
        }
    }
}

/// A bare-metal server.
pub struct Metal {
    /// Namespace the metal runs in.
    pub ns: Ns,
    /// IPv4 address on the loopback, used as the preferred source address for
    /// outgoing IPv4 traffic.
    pub sitelocal_v4: Ipv4Net,
    /// IPv6 address on the loopback, used as the preferred source address for
    /// outgoing IPv6 traffic.
    pub sitelocal_v6: Ipv6Net,
    /// What its BIRD routing daemon is configured with, which announces the
    /// sitelocals to the edge.
    pub bird: Bird,
    /// Interface name for the metal's uplink to the edge router.
    pub uplink: String,
}

/// The arguments of `ethtool` that turn off segmentation and reassembly in the
/// interface.
pub open spec fn offload_args(name: Seq<char>) -> Seq<Seq<char>> {
    seq!["-K"@, name, "tso"@, "off"@, "gso"@, "off"@, "gro"@, "off"@]
}

impl Metal {
    /// The arguments of `ethtool` for the uplink.
    pub fn disable_uplink_offloads(&self) -> (r: Vec<String>)
        ensures
            views(r@) == offload_args(self.uplink@),
    {
        let r = words(
            &vec!["-K", self.uplink.as_str(), "tso", "off", "gso", "off", "gro", "off"],
        );
        assert(views(r@) =~= offload_args(self.uplink@));
        r
    }
}

/// A value that is written to a file.
#[derive(Debug)]
pub struct FileWrite {
    pub path: String,
    pub value: String,
}

/// The views of writes.
pub open spec fn write_views(list: Seq<FileWrite>) -> Seq<(Seq<char>, Seq<char>)> {
    list.map_values(|w: FileWrite| (w.path@, w.value@))
}

/// What is written to make a namespace forward packets, or stop doing so: the
/// switches of both families, and for each directory of interface settings that
/// asymmetric routing is accepted.
pub open spec fn forwarding_writes(
    forward: bool,
    conf_dirs: Seq<Seq<char>>,
) -> Seq<(Seq<char>, Seq<char>)> {
    let v = if forward {
        "1"@
    } else {
        "0"@
    };
    seq![
        ("/proc/sys/net/ipv4/ip_forward"@, v),
        ("/proc/sys/net/ipv6/conf/all/forwarding"@, v),
    ] + conf_dirs.map_values(|d: Seq<char>| (d + "/"@ + "rp_filter"@, "0"@))
}

/// What is written to make a namespace forward packets, or stop doing so, given
/// the directories with the IPv4 settings of its interfaces.
pub fn set_ip_forwarding(forward: bool, conf_dirs: &Vec<String>) -> (r: Vec<FileWrite>)
    ensures
        write_views(r@) == forwarding_writes(forward, views(conf_dirs@)),
{
    let ghost want = forwarding_writes(forward, views(conf_dirs@));
    let v = if forward {
        "1"
    } else {
        "0"
    };
    let mut out: Vec<FileWrite> = Vec::new();
    // Linux should act as a router.
    out.push(
        FileWrite { path: "/proc/sys/net/ipv4/ip_forward".to_owned(), value: v.to_owned() },
    );
    out.push(
        FileWrite {
            path: "/proc/sys/net/ipv6/conf/all/forwarding".to_owned(),
            value: v.to_owned(),
        },
    );
    // Linux should accept asymmetric routing.
    let mut i: usize = 0;
    assert(write_views(out@) =~= want.take(2));
    while i < conf_dirs.len()
        invariant
            i <= conf_dirs@.len(),
            want == forwarding_writes(forward, views(conf_dirs@)),
            write_views(out@) == want.take(i + 2),
        decreases conf_dirs@.len() - i,
    {
        let ghost so_far = out@;
        let mut path = joined(conf_dirs[i].as_str(), "/");
        path.append("rp_filter");
        let write = FileWrite { path, value: "0".to_owned() };
        out.push(write);
        proof {
            assert(views(conf_dirs@)[i as int] == conf_dirs@[i as int]@);
            assert(write_views(out@) =~= write_views(so_far).push((write.path@, write.value@)));
            assert(want.take(i + 3) =~= want.take(i + 2).push(want[i + 2]));
        }
        i += 1;
    }
    assert(want.take(want.len() as int) =~= want);
    out
}

/// Numbers follow one another, and behind the largest comes zero.
pub proof fn law_successors(n: u32)
    ensures
        n < 0xffff_ffff ==> successor(n) == n + 1,
        n == 0xffff_ffff ==> successor(n) == 0,
{
}

/// The ends of the link of a segment: the first and the second host of the network
/// `3fff:ffff:<segment>::/64`.
pub proof fn law_link_end_addresses(segment: u16)
    ensures
        link_ends(segment).0.addr.bits == 0x3fff_ffff_0000_0000_0000_0000_0000_0001 + segment
            * 0x1_0000_0000_0000_0000_0000,
        link_ends(segment).1.addr.bits == 0x3fff_ffff_0000_0000_0000_0000_0000_0002 + segment
            * 0x1_0000_0000_0000_0000_0000,
        link_ends(segment).0.prefix_len == 64,
        link_ends(segment).1.prefix_len == 64,
{
}

/// What interfaces are called: by what they are and four hexadecimal digits.
pub proof fn law_interface_names(id: u16)
    ensures
        bridge_name_of(id) == seq!['b', 'r'] + hex4(id),
        veth_names_of(id).0 == seq!['v', 'e', 't', 'h'] + hex4(id),
        veth_names_of(id).1 == seq!['p', 'e', 'e', 'r'] + hex4(id),
{
    reveal_strlit("br");
    reveal_strlit("veth");
    reveal_strlit("peer");
    assert("br"@ =~= seq!['b', 'r']);
    assert("veth"@ =~= seq!['v', 'e', 't', 'h']);
    assert("peer"@ =~= seq!['p', 'e', 'e', 'r']);
}

/// What is done with an end of a link: it goes to its namespace first and comes up
/// last, and between the two it gets its address or joins its bridge, if it has one.
pub proof fn law_steps_of_an_end(ns: Ns, addr: IpNet, bridge: Bridge)
    ensures
        VethPlacement::Addr(ns, addr).ns_view() == ns@,
        VethPlacement::Bare(ns).ns_view() == ns@,
        VethPlacement::BridgePort(bridge).ns_view() == bridge.ns@,
        VethPlacement::Addr(ns, addr).steps() == seq![
            EndStepView::MoveToNs(ns@.pid),
            EndStepView::AddAddr(addr),
            EndStepView::SetUp,
        ],
        VethPlacement::Bare(ns).steps() == seq![
            EndStepView::MoveToNs(ns@.pid),
            EndStepView::SetUp,
        ],
        VethPlacement::BridgePort(bridge).steps() == seq![
            EndStepView::MoveToNs(bridge.ns@.pid),
            EndStepView::JoinBridge(bridge.name@),
            EndStepView::SetUp,
        ],
{
}

/// What an end of a link is known by: a port by its bridge, any other end by its own
/// name and address in its namespace.
pub proof fn law_identity_of_an_end(
    ns: Ns,
    cidr: IpNet,
    bridge: Bridge,
    name: Seq<char>,
    addr: Ipv6Addr,
)
    ensures
        end_of(VethPlacement::Addr(ns, cidr), name, addr) == (VethEndView {
            ns: ns@,
            name,
            link_local: addr,
        }),
        end_of(VethPlacement::Bare(ns), name, addr) == (VethEndView {
            ns: ns@,
            name,
            link_local: addr,
        }),
        end_of(VethPlacement::BridgePort(bridge), name, addr) == (VethEndView {
            ns: bridge.ns@,
            name: bridge.name@,
            link_local: bridge.link_local,
        }),
{
}

/// How a link is impaired: all three commands are about its device, the second sets
/// the rate and the third the delay.
pub proof fn law_impairment_commands(name: Seq<char>, impairment: LinkImpairment, delay_ms: u32)
    ensures
        impair_args(name, impairment).len() == 3,
        forall|i: int|
            0 <= i < 3 ==> (#[trigger] impair_args(name, impairment)[i])[1] == "replace"@
                && impair_args(name, impairment)[i][2] == "dev"@ && impair_args(
                name,
                impairment,
            )[i][3] == name,
        impair_args(name, impairment)[1][9] == "rate"@,
        impair_args(name, impairment)[1].last() == decimal(impairment.rate_kbit as nat) + "kbit"@,
        impair_args(name, impairment)[2][9] == "delay"@,
        impair_args(name, impairment)[2].last() == decimal(impairment.delay_ms as nat) + "ms"@,
        latency_args(name, delay_ms).len() == 8,
        latency_args(name, delay_ms)[3] == name,
        latency_args(name, delay_ms)[6] == "delay"@,
        latency_args(name, delay_ms)[7] == decimal(delay_ms as nat) + "ms"@,
        offload_args(name)[1] == name,
{
}

/// The lists of strings that are handed out are those that are held.
pub proof fn law_lists_one_by_one(list: Seq<Vec<String>>, writes: Seq<FileWrite>)
    ensures
        list_views(list).len() == list.len(),
        forall|i: int, j: int|
            0 <= i < list.len() && 0 <= j < list[i]@.len() ==> list_views(list)[i].len()
                == list[i]@.len() && #[trigger] list_views(list)[i][j] == list[i]@[j]@,
        write_views(writes).len() == writes.len(),
        forall|i: int|
            0 <= i < writes.len() ==> (#[trigger] write_views(writes)[i]).0 == writes[i].path@
                && write_views(writes)[i].1 == writes[i].value@,
{
}

/// The hosts of an IPv6 network that are numbered: all its addresses but the first,
/// which is that of the network itself.
pub proof fn law_numbered_hosts(net: Ipv6Net, i: int)
    requires
        net.prefix_len <= 128,
        0 <= i < v6_size(net) - 1,
    ensures
        numbered_v6_hosts(net).len() == v6_size(net) - 1,
        numbered_v6_hosts(net)[i] == v6_host_addrs(net)[i + 1],
{
}

/// The session of a router: with the address at the other end, after a second.
pub proof fn law_router_session(name: Seq<char>, addr: Ipv6Addr, asn: u32)
    ensures
        router_session(name, addr, asn) == (PeerView {
            name,
            port: 179,
            neighbour: Neighbour::Ip(IpAddr::V6(addr)),
            interface: None,
            remote_as: asn,
            next_hop_keep_ebgp: false,
            next_hop_self: false,
            connect_delay_seconds: Some(1),
            add_paths_tx: false,
        }),
{
}

/// The sessions of an edge: one with the routers of its metals, and one for each
/// client, in order, on the port of the client; all of them on the bridge, with
/// whoever has a link-local address there.
pub proof fn law_sessions_of_an_edge(
    interface: Seq<char>,
    asn: u32,
    clients: Seq<(Seq<char>, u16)>,
)
    ensures
        edge_sessions(interface, asn, clients).len() == clients.len() + 1,
        edge_sessions(interface, asn, clients)[0] == (PeerView {
            name: "metal_bird"@,
            port: 179,
            neighbour: Neighbour::Range(
                IpNet::V6(
                    Ipv6Net {
                        addr: Ipv6Addr { bits: 0xfe80_0000_0000_0000_0000_0000_0000_0000 },
                        prefix_len: 10,
                    },
                ),
            ),
            interface: Some(interface),
            remote_as: asn,
            next_hop_keep_ebgp: false,
            next_hop_self: true,
            connect_delay_seconds: None,
            add_paths_tx: true,
        }),
        forall|i: int|
            0 <= i < clients.len() ==> edge_sessions(interface, asn, clients)[i + 1] == (PeerView {
                name: "metal_"@ + (#[trigger] clients[i]).0,
                port: clients[i].1,
                neighbour: Neighbour::Range(
                    IpNet::V6(
                        Ipv6Net {
                            addr: Ipv6Addr { bits: 0xfe80_0000_0000_0000_0000_0000_0000_0000 },
                            prefix_len: 10,
                        },
                    ),
                ),
                interface: Some(interface),
                remote_as: asn,
                next_hop_keep_ebgp: true,
                next_hop_self: false,
                connect_delay_seconds: None,
                add_paths_tx: true,
            }),
{
}

/// The clients that are handed out are those that are held.
pub proof fn law_clients_one_by_one(list: Seq<(String, u16)>)
    ensures
        client_views(list).len() == list.len(),
        forall|i: int|
            0 <= i < list.len() ==> (#[trigger] client_views(list)[i]).0 == list[i].0@
                && client_views(list)[i].1 == list[i].1,
{
}

/// What is written to turn forwarding on or off: the same value for both families,
/// and for every interface that packets are not dropped for the way they came.
pub proof fn law_forwarding_is_written(forward: bool, conf_dirs: Seq<Seq<char>>)
    ensures
        forwarding_writes(forward, conf_dirs).len() == conf_dirs.len() + 2,
        forwarding_writes(forward, conf_dirs)[0].0 == "/proc/sys/net/ipv4/ip_forward"@,
        forwarding_writes(forward, conf_dirs)[1].0 == "/proc/sys/net/ipv6/conf/all/forwarding"@,
        forward ==> forwarding_writes(forward, conf_dirs)[0].1 == "1"@ && forwarding_writes(
            forward,
            conf_dirs,
        )[1].1 == "1"@,
        !forward ==> forwarding_writes(forward, conf_dirs)[0].1 == "0"@ && forwarding_writes(
            forward,
            conf_dirs,
        )[1].1 == "0"@,
        forall|i: int|
            0 <= i < conf_dirs.len() ==> forwarding_writes(forward, conf_dirs)[i + 2].0
                == #[trigger] conf_dirs[i] + "/"@ + "rp_filter"@ && forwarding_writes(
                forward,
                conf_dirs,
            )[i + 2].1 == "0"@,
{
}

/// What is seen of bridges, ends of links and what is done with them is what they
/// hold.
pub proof fn law_links_show_their_fields(
    bridge: Bridge,
    end: VethEnd,
    pid: i32,
    addr: IpNet,
    name: String,
)
    ensures
        bridge@.ns == bridge.ns@,
        bridge@.name == bridge.name@,
        bridge@.link_local == bridge.link_local,
        end@.ns == end.ns@,
        end@.name == end.name@,
        end@.link_local == end.link_local,
        EndStep::MoveToNs(pid)@ == EndStepView::MoveToNs(pid),
        EndStep::AddAddr(addr)@ == EndStepView::AddAddr(addr),
        EndStep::JoinBridge(name)@ == EndStepView::JoinBridge(name@),
        EndStep::SetUp@ == EndStepView::SetUp,
{
}

/// There are links with the numbers up to 65535, each with the two hosts of its
/// network at its ends, and none beyond.
pub proof fn law_links_by_number(number: u32)
    ensures
        number <= 65535 <==> link_with(number) is Some,
        number <= 65535 ==> {
            let ends = link_with(number)->0;
            &&& ends.0.addr.bits == 0x3fff_ffff_0000_0000_0000_0000_0000_0001 + number
                * 0x1_0000_0000_0000_0000_0000
            &&& ends.1.addr.bits == 0x3fff_ffff_0000_0000_0000_0000_0000_0002 + number
                * 0x1_0000_0000_0000_0000_0000
            &&& ends.0.prefix_len == 64
            &&& ends.1.prefix_len == 64
        },
{
    if number <= 65535 {
        law_link_end_addresses(number as u16);
    }
}

} // verus!
