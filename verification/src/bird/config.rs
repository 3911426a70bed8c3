//! The parts of a BIRD configuration.

use vstd::prelude::*;
use vstd::std_specs::convert::{FromSpec, FromSpecImpl};
use vstd::string::StringExecFns;

use crate::net::{net_text, IpAddr, IpNet, Ipv4Addr, Ipv4Net, Ipv6Addr, Ipv6Net};

verus! {

/// What becomes of traffic on a static route.
#[derive(Clone, Copy, Debug, PartialEq, Eq, Structural)]
pub enum RouteKind {
    Blackhole,
}

/// A static route.
#[derive(Clone, Copy, Debug, PartialEq, Eq, Structural)]
pub struct Route {
    pub prefix: IpNet,
    pub kind: RouteKind,
}

/// A static route in the language of the configuration: the prefix and what
/// becomes of its traffic.
pub open spec fn route_text(route: Route) -> Seq<char> {
    net_text(route.prefix) + " "@ + "blackhole"@
}

impl RouteKind {
    /// The word for it in the configuration.
    pub fn to_text(&self) -> (r: &'static str)
        ensures
            r@ == "blackhole"@,
    {
        match self {
            RouteKind::Blackhole => "blackhole",
        }
    }
}

impl Route {
    /// A route that drops its traffic.
    pub fn blackhole(prefix: IpNet) -> (r: Route)
        ensures
            r == (Route { prefix, kind: RouteKind::Blackhole }),
    {
        Route { prefix, kind: RouteKind::Blackhole }
    }

    /// The route in the language of the configuration.
    pub fn to_text(&self) -> (r: String)
        ensures
            r@ == route_text(*self),
    {
        let mut out = self.prefix.to_text();
        out.append(" ");
        out.append(self.kind.to_text());
        out
    }
}

/// Who is on the other side of a session: one address, or any of a range.
#[derive(Clone, Copy, Debug, PartialEq, Eq, Structural)]
pub enum Neighbour {
    Ip(IpAddr),
    Range(IpNet),
}

impl From<IpAddr> for Neighbour {
    fn from(addr: IpAddr) -> (r: Neighbour) {
        Neighbour::Ip(addr)
    }
}

impl FromSpecImpl<IpAddr> for Neighbour {
    open spec fn obeys_from_spec() -> bool {
        true
    }

    open spec fn from_spec(addr: IpAddr) -> Neighbour {
        Neighbour::Ip(addr)
    }
}

impl From<Ipv6Addr> for Neighbour {
    fn from(addr: Ipv6Addr) -> (r: Neighbour) {
        Neighbour::Ip(IpAddr::V6(addr))
    }
}

impl FromSpecImpl<Ipv6Addr> for Neighbour {
    open spec fn obeys_from_spec() -> bool {
        true
    }

    open spec fn from_spec(addr: Ipv6Addr) -> Neighbour {
        Neighbour::Ip(IpAddr::V6(addr))
    }
}

impl From<Ipv4Addr> for Neighbour {
    fn from(addr: Ipv4Addr) -> (r: Neighbour) {
        Neighbour::Ip(IpAddr::V4(addr))
    }
}

impl FromSpecImpl<Ipv4Addr> for Neighbour {
    open spec fn obeys_from_spec() -> bool {
        true
    }

    open spec fn from_spec(addr: Ipv4Addr) -> Neighbour {
        Neighbour::Ip(IpAddr::V4(addr))
    }
}

impl From<IpNet> for Neighbour {
    fn from(net: IpNet) -> (r: Neighbour) {
        Neighbour::Range(net)
    }
}

impl FromSpecImpl<IpNet> for Neighbour {
    open spec fn obeys_from_spec() -> bool {
        true
    }

    open spec fn from_spec(net: IpNet) -> Neighbour {
        Neighbour::Range(net)
    }
}

impl From<Ipv4Net> for Neighbour {
    fn from(net: Ipv4Net) -> (r: Neighbour) {
        Neighbour::Range(IpNet::V4(net))
    }
}

impl FromSpecImpl<Ipv4Net> for Neighbour {
    open spec fn obeys_from_spec() -> bool {
        true
    }

    open spec fn from_spec(net: Ipv4Net) -> Neighbour {
        Neighbour::Range(IpNet::V4(net))
    }
}

impl From<Ipv6Net> for Neighbour {
    fn from(net: Ipv6Net) -> (r: Neighbour) {
        Neighbour::Range(IpNet::V6(net))
    }
}

impl FromSpecImpl<Ipv6Net> for Neighbour {
    open spec fn obeys_from_spec() -> bool {
        true
    }

    open spec fn from_spec(net: Ipv6Net) -> Neighbour {
        Neighbour::Range(IpNet::V6(net))
    }
}

/// A BGP session.
#[derive(Clone, Debug)]
pub struct Peer {
    pub name: String,
    pub port: u16,
    pub neighbour: Neighbour,
    pub interface: Option<String>,
    pub remote_as: u32,
    pub next_hop_keep_ebgp: bool,
    pub next_hop_self: bool,
    pub connect_delay_seconds: Option<u32>,
    pub add_paths_tx: bool,
}

/// A [`Peer`] over sequences.
#[verifier::ext_equal]
pub struct PeerView {
    pub name: Seq<char>,
    pub port: u16,
    pub neighbour: Neighbour,
    pub interface: Option<Seq<char>>,
    pub remote_as: u32,
    pub next_hop_keep_ebgp: bool,
    pub next_hop_self: bool,
    pub connect_delay_seconds: Option<u32>,
    pub add_paths_tx: bool,
}

impl View for Peer {
    type V = PeerView;

    open spec fn view(&self) -> PeerView {
        PeerView {
            name: self.name@,
            port: self.port,
            neighbour: self.neighbour,
            interface: match self.interface {
                Some(interface) => Some(interface@),
                None => None,
            },
            remote_as: self.remote_as,
            next_hop_keep_ebgp: self.next_hop_keep_ebgp,
            next_hop_self: self.next_hop_self,
            connect_delay_seconds: self.connect_delay_seconds,
            add_paths_tx: self.add_paths_tx,
        }
    }
}

/// A session at the port of BGP, with nothing else asked for.
pub open spec fn plain_peer(name: Seq<char>, neighbour: Neighbour, remote_as: u32) -> PeerView {
    PeerView {
        name,
        port: 179,
        neighbour,
        interface: None,
        remote_as,
        next_hop_keep_ebgp: false,
        next_hop_self: false,
        connect_delay_seconds: None,
        add_paths_tx: false,
    }
}

impl Peer {
    /// A session at the port of BGP, with nothing else asked for.
    pub fn new(name: String, neighbour: Neighbour, remote_as: u32) -> (r: Peer)
        ensures
            r@ == plain_peer(name@, neighbour, remote_as),
    {
        Peer {
            name,
            port: 179,
            neighbour,
            remote_as,
            interface: None,
            connect_delay_seconds: None,
            add_paths_tx: false,
            next_hop_keep_ebgp: false,
            next_hop_self: false,
        }
    }

    /// Whether several paths per prefix are sent.
    #[must_use]
    pub fn add_paths_tx(self, enabled: bool) -> (r: Peer)
        ensures
            r@ == (PeerView { add_paths_tx: enabled, ..self@ }),
    {
        Peer { add_paths_tx: enabled, ..self }
    }

    /// How long to wait before connecting.
    #[must_use]
    pub fn connect_delay_seconds(self, delay: u32) -> (r: Peer)
        ensures
            r@ == (PeerView { connect_delay_seconds: Some(delay), ..self@ }),
    {
        Peer { connect_delay_seconds: Some(delay), ..self }
    }

    /// The interface behind which the neighbour is.
    #[must_use]
    pub fn interface(self, interface: String) -> (r: Peer)
        ensures
            r@ == (PeerView { interface: Some(interface@), ..self@ }),
    {
        Peer { interface: Some(interface), ..self }
    }

    /// Whether nexthops of external routes are kept.
    #[must_use]
    pub fn next_hop_keep_ebgp(self, next_hop_keep_ebgp: bool) -> (r: Peer)
        ensures
            r@ == (PeerView { next_hop_keep_ebgp, ..self@ }),
    {
        Peer { next_hop_keep_ebgp, ..self }
    }

    /// Whether nexthops are replaced by the router itself.
    #[must_use]
    pub fn next_hop_self(self, next_hop_self: bool) -> (r: Peer)
        ensures
            r@ == (PeerView { next_hop_self, ..self@ }),
    {
        Peer { next_hop_self, ..self }
    }

    /// The port of the session.
    #[must_use]
    pub fn port(self, port: u16) -> (r: Peer)
        ensures
            r@ == (PeerView { port, ..self@ }),
    {
        Peer { port, ..self }
    }
}

/// A peer as it comes: on the usual port of BGP, without an interface, a delay or
/// any of the options.
pub proof fn law_plain_peer(name: Seq<char>, neighbour: Neighbour, remote_as: u32)
    ensures
        plain_peer(name, neighbour, remote_as).name == name,
        plain_peer(name, neighbour, remote_as).port == 179,
        plain_peer(name, neighbour, remote_as).neighbour == neighbour,
        plain_peer(name, neighbour, remote_as).interface is None,
        plain_peer(name, neighbour, remote_as).remote_as == remote_as,
        !plain_peer(name, neighbour, remote_as).next_hop_keep_ebgp,
        !plain_peer(name, neighbour, remote_as).next_hop_self,
        plain_peer(name, neighbour, remote_as).connect_delay_seconds is None,
        !plain_peer(name, neighbour, remote_as).add_paths_tx,
{
}

/// What is seen of a peer is what its fields hold.
pub proof fn law_peer_shows_its_fields(peer: Peer)
    ensures
        peer@.name == peer.name@,
        peer@.port == peer.port,
        peer@.neighbour == peer.neighbour,
        peer@.interface is Some <==> peer.interface is Some,
        peer.interface is Some ==> peer@.interface->0 == peer.interface->0@,
        peer@.remote_as == peer.remote_as,
        peer@.next_hop_keep_ebgp == peer.next_hop_keep_ebgp,
        peer@.next_hop_self == peer.next_hop_self,
        peer@.connect_delay_seconds == peer.connect_delay_seconds,
        peer@.add_paths_tx == peer.add_paths_tx,
{
}

/// The text of a static route: its prefix, a space and what becomes of its traffic.
pub proof fn law_route_text_parts(route: Route)
    ensures
        route_text(route) == net_text(route.prefix) + seq![' '] + "blackhole"@,
{
    reveal_strlit(" ");
    assert(" "@ =~= seq![' ']);
}

/// A neighbour is given by its address or by a range of them, of either family.
pub proof fn law_neighbours(v4: Ipv4Addr, v6: Ipv6Addr, net4: Ipv4Net, net6: Ipv6Net)
    ensures
        <Neighbour as FromSpec<IpAddr>>::from_spec(IpAddr::V4(v4)) == Neighbour::Ip(IpAddr::V4(v4)),
        <Neighbour as FromSpec<IpAddr>>::from_spec(IpAddr::V6(v6)) == Neighbour::Ip(IpAddr::V6(v6)),
        <Neighbour as FromSpec<Ipv4Addr>>::from_spec(v4) == Neighbour::Ip(IpAddr::V4(v4)),
        <Neighbour as FromSpec<Ipv6Addr>>::from_spec(v6) == Neighbour::Ip(IpAddr::V6(v6)),
        <Neighbour as FromSpec<IpNet>>::from_spec(IpNet::V4(net4)) == Neighbour::Range(
            IpNet::V4(net4),
        ),
        <Neighbour as FromSpec<IpNet>>::from_spec(IpNet::V6(net6)) == Neighbour::Range(
            IpNet::V6(net6),
        ),
        <Neighbour as FromSpec<Ipv4Net>>::from_spec(net4) == Neighbour::Range(IpNet::V4(net4)),
        <Neighbour as FromSpec<Ipv6Net>>::from_spec(net6) == Neighbour::Range(IpNet::V6(net6)),
{
}

} // verus!
