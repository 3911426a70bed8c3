//! What the daemon learns from BGP: routes, announcements and withdrawals, and
//! how it introduces itself to its peers.

use vstd::prelude::*;

use crate::config::BgpConfig;
use crate::net::{IpAddr, IpNet, Ipv4Addr, Ipv4Net, Ipv6Addr, Ipv6Net};

verus! {

pub type Nexthop = IpAddr;

pub type Nlri = IpNet;

pub type PathId = Option<u32>;

/// A prefix on one of the paths by which it was announced.
#[derive(Clone, Copy, Debug, PartialEq, Eq, Hash, Structural)]
pub struct Route {
    pub path_id: PathId,
    pub nlri: Nlri,
}

/// An IPv4 prefix as an update message carries it.
#[derive(Clone, Copy, Debug, PartialEq, Eq, Hash, Structural)]
pub struct Ipv4UnicastAddress {
    pub path_id: PathId,
    pub network: Ipv4Net,
}

/// An IPv6 prefix as an update message carries it.
#[derive(Clone, Copy, Debug, PartialEq, Eq, Hash, Structural)]
pub struct Ipv6UnicastAddress {
    pub path_id: PathId,
    pub network: Ipv6Net,
}

/// Prefixes that a multiprotocol attribute announces.
#[derive(Clone, Debug)]
pub enum MpReach {
    Ipv4Unicast {
        next_hop: IpAddr,
        next_hop_local: Option<Ipv6Addr>,
        nlri: Vec<Ipv4UnicastAddress>,
    },
    Ipv6Unicast {
        next_hop_global: Ipv6Addr,
        next_hop_local: Option<Ipv6Addr>,
        nlri: Vec<Ipv6UnicastAddress>,
    },
    /// An address family that the daemon does not speak.
    Other,
}

/// Prefixes that a multiprotocol attribute withdraws.
#[derive(Clone, Debug)]
pub enum MpUnreach {
    Ipv4Unicast { nlri: Vec<Ipv4UnicastAddress> },
    Ipv6Unicast { nlri: Vec<Ipv6UnicastAddress> },
    /// An address family that the daemon does not speak.
    Other,
}

/// A path attribute of an update message.
#[derive(Clone, Debug)]
pub enum PathAttribute {
    NextHop(Ipv4Addr),
    MpReach(MpReach),
    MpUnreach(MpUnreach),
    /// An attribute that the daemon does not read.
    Other,
}

/// A BGP update message.
#[derive(Clone, Debug)]
pub struct BgpUpdateMessage {
    pub withdraw_routes: Vec<Ipv4UnicastAddress>,
    pub path_attributes: Vec<PathAttribute>,
    pub nlri: Vec<Ipv4UnicastAddress>,
}

/// Prefixes that are reached over one nexthop.
#[derive(Clone, Debug)]
pub struct Announcement {
    pub routes: Vec<Route>,
    pub nexthop: Nexthop,
}

/// What a BGP update message changes.
#[derive(Clone, Debug)]
pub struct Update {
    /// Different prefixes may be announced over different nexthops.
    pub announcements: Vec<Announcement>,
    pub withdrawals: Vec<Route>,
}

/// Prefixes are announced without the nexthop over which they are reached.
#[derive(Clone, Copy, Debug, PartialEq, Eq, Structural)]
pub struct MissingNexthop;

impl MissingNexthop {
    /// The error as text.
    pub fn to_text(&self) -> (r: &'static str)
        ensures
            r@ == "bgp update missing nexthop"@,
    {
        "bgp update missing nexthop"
    }
}

/// An [`Announcement`] over sequences.
#[verifier::ext_equal]
pub struct AnnouncementView {
    pub routes: Seq<Route>,
    pub nexthop: Nexthop,
}

/// An [`Update`] over sequences.
#[verifier::ext_equal]
pub struct UpdateView {
    pub announcements: Seq<AnnouncementView>,
    pub withdrawals: Seq<Route>,
}

impl View for Announcement {
    type V = AnnouncementView;

    open spec fn view(&self) -> AnnouncementView {
        AnnouncementView { routes: self.routes@, nexthop: self.nexthop }
    }
}

impl View for Update {
    type V = UpdateView;

    open spec fn view(&self) -> UpdateView {
        UpdateView {
            announcements: self.announcements@.map_values(|a: Announcement| a@),
            withdrawals: self.withdrawals@,
        }
    }
}

/// The route of an IPv4 prefix.
pub open spec fn route_v4(a: Ipv4UnicastAddress) -> Route {
    Route { path_id: a.path_id, nlri: IpNet::V4(a.network) }
}

/// The route of an IPv6 prefix.
pub open spec fn route_v6(a: Ipv6UnicastAddress) -> Route {
    Route { path_id: a.path_id, nlri: IpNet::V6(a.network) }
}

/// The routes of IPv4 prefixes, in order.
pub open spec fn routes_v4(list: Seq<Ipv4UnicastAddress>) -> Seq<Route> {
    list.map_values(|a: Ipv4UnicastAddress| route_v4(a))
}

/// The routes of IPv6 prefixes, in order.
pub open spec fn routes_v6(list: Seq<Ipv6UnicastAddress>) -> Seq<Route> {
    list.map_values(|a: Ipv6UnicastAddress| route_v6(a))
}

/// The first nexthop attribute.
pub open spec fn first_nexthop(attrs: Seq<PathAttribute>) -> Option<Ipv4Addr>
    decreases attrs.len(),
{
    if attrs.len() == 0 {
        None
    } else if attrs[0] is NextHop {
        Some(attrs[0]->NextHop_0)
    } else {
        first_nexthop(attrs.drop_first())
    }
}

/// The first attribute that announces prefixes.
pub open spec fn first_reach(attrs: Seq<PathAttribute>) -> Option<MpReach>
    decreases attrs.len(),
{
    if attrs.len() == 0 {
        None
    } else if attrs[0] is MpReach {
        Some(attrs[0]->MpReach_0)
    } else {
        first_reach(attrs.drop_first())
    }
}

/// The first attribute that withdraws prefixes.
pub open spec fn first_unreach(attrs: Seq<PathAttribute>) -> Option<MpUnreach>
    decreases attrs.len(),
{
    if attrs.len() == 0 {
        None
    } else if attrs[0] is MpUnreach {
        Some(attrs[0]->MpUnreach_0)
    } else {
        first_unreach(attrs.drop_first())
    }
}

/// What a multiprotocol attribute announces. Of the nexthops it names, the
/// globally scoped one counts: a link-local one is no use without its interface.
pub open spec fn reach_announcements(reach: Option<MpReach>) -> Seq<AnnouncementView> {
    match reach {
        Some(MpReach::Ipv4Unicast { next_hop, next_hop_local: _, nlri }) => seq![
            AnnouncementView { routes: routes_v4(nlri@), nexthop: next_hop },
        ],
        Some(MpReach::Ipv6Unicast { next_hop_global, next_hop_local: _, nlri }) => seq![
            AnnouncementView { routes: routes_v6(nlri@), nexthop: IpAddr::V6(next_hop_global) },
        ],
        _ => Seq::empty(),
    }
}

/// What a multiprotocol attribute withdraws.
pub open spec fn unreach_withdrawals(unreach: Option<MpUnreach>) -> Seq<Route> {
    match unreach {
        Some(MpUnreach::Ipv4Unicast { nlri }) => routes_v4(nlri@),
        Some(MpUnreach::Ipv6Unicast { nlri }) => routes_v6(nlri@),
        _ => Seq::empty(),
    }
}

impl BgpUpdateMessage {
    /// The message announces prefixes in its body and names no nexthop for them.
    pub open spec fn lacks_nexthop(self) -> bool {
        self.nlri@.len() > 0 && first_nexthop(self.path_attributes@) is None
    }

    /// The announcement in the body of the message.
    pub open spec fn body_announcements(self) -> Seq<AnnouncementView> {
        if self.nlri@.len() > 0 {
            seq![
                AnnouncementView {
                    routes: routes_v4(self.nlri@),
                    nexthop: IpAddr::V4(first_nexthop(self.path_attributes@)->0),
                },
            ]
        } else {
            Seq::empty()
        }
    }

    /// Everything that the message announces and withdraws: what stands in its
    /// body comes first, then what stands in its multiprotocol attributes.
    pub open spec fn meaning(self) -> UpdateView {
        UpdateView {
            announcements: self.body_announcements() + reach_announcements(
                first_reach(self.path_attributes@),
            ),
            withdrawals: routes_v4(self.withdraw_routes@) + unreach_withdrawals(
                first_unreach(self.path_attributes@),
            ),
        }
    }
}

fn routes_of_v4(list: &Vec<Ipv4UnicastAddress>) -> (r: Vec<Route>)
    ensures
        r@ == routes_v4(list@),
        r@.len() == list@.len(),
        forall|i: int|
            0 <= i < list@.len() ==> (#[trigger] r@[i]).path_id == list@[i].path_id && r@[i].nlri
                == IpNet::V4(list@[i].network),
{
    let mut out: Vec<Route> = Vec::new();
    let mut i: usize = 0;
    while i < list.len()
        invariant
            i <= list@.len(),
            out@ == routes_v4(list@).take(i as int),
        decreases list@.len() - i,
    {
        out.push(Route { path_id: list[i].path_id, nlri: IpNet::V4(list[i].network) });
        i += 1;
        assert(out@ =~= routes_v4(list@).take(i as int));
    }
    assert(routes_v4(list@).take(list@.len() as int) =~= routes_v4(list@));
    out
}

fn routes_of_v6(list: &Vec<Ipv6UnicastAddress>) -> (r: Vec<Route>)
    ensures
        r@ == routes_v6(list@),
        r@.len() == list@.len(),
        forall|i: int|
            0 <= i < list@.len() ==> (#[trigger] r@[i]).path_id == list@[i].path_id && r@[i].nlri
                == IpNet::V6(list@[i].network),
{
    let mut out: Vec<Route> = Vec::new();
    let mut i: usize = 0;
    while i < list.len()
        invariant
            i <= list@.len(),
            out@ == routes_v6(list@).take(i as int),
        decreases list@.len() - i,
    {
        out.push(Route { path_id: list[i].path_id, nlri: IpNet::V6(list[i].network) });
        i += 1;
        assert(out@ =~= routes_v6(list@).take(i as int));
    }
    assert(routes_v6(list@).take(list@.len() as int) =~= routes_v6(list@));
    out
}

fn find_nexthop(attrs: &Vec<PathAttribute>) -> (r: Option<Ipv4Addr>)
    ensures
        r == first_nexthop(attrs@),
{
    let mut i: usize = 0;
    assert(attrs@.skip(0) =~= attrs@);
    while i < attrs.len()
        invariant
            i <= attrs@.len(),
            first_nexthop(attrs@) == first_nexthop(attrs@.skip(i as int)),
        decreases attrs@.len() - i,
    {
        assert(attrs@.skip(i as int).drop_first() =~= attrs@.skip(i + 1));
        if let PathAttribute::NextHop(nexthop) = &attrs[i] {
            return Some(*nexthop);
        }
        i += 1;
    }
    None
}

fn find_reach(attrs: &Vec<PathAttribute>) -> (r: Option<&MpReach>)
    ensures
        match r {
            Some(reach) => first_reach(attrs@) == Some(*reach),
            None => first_reach(attrs@) is None,
        },
{
    let mut i: usize = 0;
    assert(attrs@.skip(0) =~= attrs@);
    while i < attrs.len()
        invariant
            i <= attrs@.len(),
            first_reach(attrs@) == first_reach(attrs@.skip(i as int)),
        decreases attrs@.len() - i,
    {
        assert(attrs@.skip(i as int).drop_first() =~= attrs@.skip(i + 1));
        if let PathAttribute::MpReach(reach) = &attrs[i] {
            return Some(reach);
        }
        i += 1;
    }
    None
}

fn find_unreach(attrs: &Vec<PathAttribute>) -> (r: Option<&MpUnreach>)
    ensures
        match r {
            Some(unreach) => first_unreach(attrs@) == Some(*unreach),
            None => first_unreach(attrs@) is None,
        },
{
    let mut i: usize = 0;
    assert(attrs@.skip(0) =~= attrs@);
    while i < attrs.len()
        invariant
            i <= attrs@.len(),
            first_unreach(attrs@) == first_unreach(attrs@.skip(i as int)),
        decreases attrs@.len() - i,
    {
        assert(attrs@.skip(i as int).drop_first() =~= attrs@.skip(i + 1));
        if let PathAttribute::MpUnreach(unreach) = &attrs[i] {
            return Some(unreach);
        }
        i += 1;
    }
    None
}

impl Update {
    /// Reads an update message.
    pub fn try_from(msg: &BgpUpdateMessage) -> (r: Result<Update, MissingNexthop>)
        ensures
            r is Err <==> msg.lacks_nexthop(),
            r is Ok ==> r->Ok_0@ == msg.meaning(),
            r is Ok ==> r->Ok_0.withdrawals@ == msg.meaning().withdrawals,
            r is Ok ==> r->Ok_0.announcements@.len() == msg.meaning().announcements.len(),
            r is Ok ==> forall|i: int|
                0 <= i < r->Ok_0.announcements@.len() ==> (
                #[trigger] r->Ok_0.announcements@[i]).nexthop
                    == msg.meaning().announcements[i].nexthop && r->Ok_0.announcements@[i].routes@
                    == msg.meaning().announcements[i].routes,
    {
        let mut announcements: Vec<Announcement> = Vec::new();

        // IPv4 advertised using "legacy" BGP.
        if msg.nlri.len() > 0 {
            let nexthop = match find_nexthop(&msg.path_attributes) {
                Some(nexthop) => IpAddr::V4(nexthop),
                None => {
                    return Err(MissingNexthop);
                },
            };
            announcements.push(Announcement { routes: routes_of_v4(&msg.nlri), nexthop });
        }
        let ghost body = announcements@;
        assert(body.map_values(|a: Announcement| a@) =~= msg.body_announcements());

        // IPv4 withdrawn using "legacy" BGP.
        let mut withdrawals = routes_of_v4(&msg.withdraw_routes);

        // IPv4 or IPv6 advertised using MP-BGP.
        match find_reach(&msg.path_attributes) {
            Some(MpReach::Ipv4Unicast { next_hop, nlri, .. }) => {
                announcements.push(
                    Announcement { routes: routes_of_v4(nlri), nexthop: *next_hop },
                );
            },
            Some(MpReach::Ipv6Unicast { next_hop_global, nlri, .. }) => {
                announcements.push(
                    Announcement {
                        routes: routes_of_v6(nlri),
                        nexthop: IpAddr::V6(*next_hop_global),
                    },
                );
            },
            _ => {},
        }
        assert(announcements@.map_values(|a: Announcement| a@) =~= msg.meaning().announcements);

        // IPv4 or IPv6 withdrawn using MP-BGP.
        match find_unreach(&msg.path_attributes) {
            Some(MpUnreach::Ipv4Unicast { nlri }) => {
                let mut routes = routes_of_v4(nlri);
                withdrawals.append(&mut routes);
            },
            Some(MpUnreach::Ipv6Unicast { nlri }) => {
                let mut routes = routes_of_v6(nlri);
                withdrawals.append(&mut routes);
            },
            _ => {},
        }
        assert(withdrawals@ =~= msg.meaning().withdrawals);
        assert forall|i: int| 0 <= i < announcements@.len() implies (
        #[trigger] announcements@[i]).nexthop == msg.meaning().announcements[i].nexthop
            && announcements@[i].routes@ == msg.meaning().announcements[i].routes by {
            assert(announcements@.map_values(|a: Announcement| a@)[i] == announcements@[i]@);
        }

        Ok(Update { announcements, withdrawals })
    }
}

/// How a peer's session treats an update message.
#[derive(Clone, Copy, Debug, PartialEq, Eq, Structural)]
pub enum UpdateTreatment {
    Normal,
    AttributeDiscard,
    TreatAsWithdraw,
    ResetAddressFamily,
    SessionReset,
}

/// What a peer's session reports.
#[derive(Clone, Debug)]
pub enum PeerEvent {
    /// An update message came in.
    UpdateMsg { established: bool, treatment: UpdateTreatment, msg: BgpUpdateMessage },
    /// Anything else happened.
    Other,
    /// The session failed.
    Failed,
}

/// What follows from an event of a peer's session.
#[derive(Clone, Debug)]
pub enum PeerAction {
    /// Hand the update to every subscriber.
    Forward(Update),
    /// Drop the message because of how the session treats it.
    SkipTreatment(UpdateTreatment),
    /// Drop the message because it does not say where its prefixes are reached.
    SkipMalformed(MissingNexthop),
    /// Nothing to do.
    Ignore,
    /// Drop the subscribers and stop listening to the session.
    Stop,
}

/// The event brings an update for the subscribers.
pub open spec fn reaches_subscribers(event: PeerEvent) -> bool {
    match event {
        PeerEvent::UpdateMsg { established, treatment, msg } => established && treatment
            == UpdateTreatment::Normal && !msg.lacks_nexthop(),
        _ => false,
    }
}

/// Decides what follows from an event: only an update message that is treated
/// normally in an established session, and that can be read, reaches the
/// subscribers.
pub fn on_peer_event(event: &PeerEvent) -> (r: PeerAction)
    ensures
        match event {
            PeerEvent::UpdateMsg { established, treatment, msg } => if !*established {
                r is Ignore
            } else if *treatment != UpdateTreatment::Normal {
                r == PeerAction::SkipTreatment(*treatment)
            } else if msg.lacks_nexthop() {
                r == PeerAction::SkipMalformed(MissingNexthop)
            } else {
                r is Forward && r->Forward_0@ == msg.meaning()
            },
            PeerEvent::Other => r is Ignore,
            PeerEvent::Failed => r is Stop,
        },
        r is Forward <==> reaches_subscribers(*event),
{
    match event {
        PeerEvent::UpdateMsg { established, treatment, msg } => {
            if !*established {
                return PeerAction::Ignore;
            }
            if *treatment != UpdateTreatment::Normal {
                return PeerAction::SkipTreatment(*treatment);
            }
            match Update::try_from(msg) {
                Ok(update) => PeerAction::Forward(update),
                Err(e) => PeerAction::SkipMalformed(e),
            }
        },
        PeerEvent::Other => PeerAction::Ignore,
        PeerEvent::Failed => PeerAction::Stop,
    }
}

/// An IPv6 socket address.
#[derive(Clone, Copy, Debug, PartialEq, Eq, Structural)]
pub struct SocketAddrV6 {
    pub ip: Ipv6Addr,
    pub port: u16,
    pub flowinfo: u32,
    pub scope_id: u32,
}

/// The socket address on which the daemon accepts BGP connections: any local
/// address, at the configured port.
pub fn listen_addr(config: &BgpConfig) -> (r: SocketAddrV6)
    ensures
        r == (SocketAddrV6 { ip: Ipv6Addr { bits: 0 }, port: config.port, flowinfo: 0, scope_id: 0 }),
{
    SocketAddrV6 { ip: Ipv6Addr { bits: 0 }, port: config.port, flowinfo: 0, scope_id: 0 }
}

/// Where a peer accepts connections.
pub open spec fn peer_socket(ip: Ipv6Addr, port: u16, scope_id: u32) -> SocketAddrV6 {
    SocketAddrV6 { ip, port, flowinfo: 0, scope_id }
}

/// The socket addresses of the configured peers, in order: each at the
/// configured port, in the scope of the interface with the given index.
pub fn peer_addrs(config: &BgpConfig, scope_id: u32) -> (r: Vec<SocketAddrV6>)
    ensures
        r@ == config.peer_ips@.map_values(
            |ip: Ipv6Addr| SocketAddrV6 { ip, port: config.port, flowinfo: 0, scope_id },
        ),
        r@.len() == config.peer_ips@.len(),
        forall|i: int|
            0 <= i < r@.len() ==> #[trigger] r@[i] == peer_socket(
                config.peer_ips@[i],
                config.port,
                scope_id,
            ),
{
    let ghost want = config.peer_ips@.map_values(
        |ip: Ipv6Addr| SocketAddrV6 { ip, port: config.port, flowinfo: 0, scope_id },
    );
    let mut out: Vec<SocketAddrV6> = Vec::new();
    let mut i: usize = 0;
    while i < config.peer_ips.len()
        invariant
            i <= config.peer_ips@.len(),
            want == config.peer_ips@.map_values(
                |ip: Ipv6Addr| SocketAddrV6 { ip, port: config.port, flowinfo: 0, scope_id },
            ),
            out@ == want.take(i as int),
        decreases config.peer_ips@.len() - i,
    {
        out.push(
            SocketAddrV6 { ip: config.peer_ips[i], port: config.port, flowinfo: 0, scope_id },
        );
        i += 1;
        assert(out@ =~= want.take(i as int));
    }
    assert(want.take(want.len() as int) =~= want);
    out
}

/// An address family of BGP.
#[derive(Clone, Copy, Debug, PartialEq, Eq, Structural)]
pub enum AddressType {
    Ipv4Unicast,
    Ipv6Unicast,
}

/// Whether several paths per prefix are sent and received in one family.
#[derive(Clone, Copy, Debug, PartialEq, Eq, Structural)]
pub struct AddPathAddressFamily {
    pub address_type: AddressType,
    pub send: bool,
    pub receive: bool,
}

/// A capability that the daemon offers to its peers.
#[derive(Clone, Debug)]
pub enum BgpCapability {
    AddPath(Vec<AddPathAddressFamily>),
    MultiProtocolExtensions(AddressType),
}

/// What the daemon tells the session layer about one of its peers.
#[derive(Clone, Debug)]
pub struct PeerPlan {
    /// Our autonomous system, which is that of the peer too.
    pub asn: u32,
    pub bgp_id: Ipv4Addr,
    pub addr: SocketAddrV6,
    /// How long to wait before opening a connection, in seconds.
    pub open_delay: u16,
    /// How long a silent session is kept, in seconds.
    pub hold_timer: u16,
    pub capabilities: Vec<BgpCapability>,
}

/// The plan for one peer: the daemon receives several paths per prefix and
/// sends none, and speaks IPv4 and IPv6 unicast.
pub fn peer_plan(config: &BgpConfig, addr: SocketAddrV6, hold_timer_secs: u64) -> (r: PeerPlan)
    ensures
        r.asn == config.asn,
        r.bgp_id == config.bgp_id,
        r.addr == addr,
        r.open_delay == 5,
        r.hold_timer == hold_timer_secs as u16,
        r.capabilities@.len() == 3,
        r.capabilities@[0] is AddPath,
        r.capabilities@[0]->AddPath_0@ == seq![
            (AddPathAddressFamily {
                address_type: AddressType::Ipv4Unicast,
                send: false,
                receive: true,
            }),
            (AddPathAddressFamily {
                address_type: AddressType::Ipv6Unicast,
                send: false,
                receive: true,
            }),
        ],
        r.capabilities@[1] == BgpCapability::MultiProtocolExtensions(AddressType::Ipv4Unicast),
        r.capabilities@[2] == BgpCapability::MultiProtocolExtensions(AddressType::Ipv6Unicast),
{
    let families = vec![
        AddPathAddressFamily {
            address_type: AddressType::Ipv4Unicast,
            send: false,
            receive: true,
        },
        AddPathAddressFamily {
            address_type: AddressType::Ipv6Unicast,
            send: false,
            receive: true,
        },
    ];
    PeerPlan {
        asn: config.asn,
        bgp_id: config.bgp_id,
        addr,
        open_delay: 5,
        hold_timer: #[verifier::truncate] (hold_timer_secs as u16),
        capabilities: vec![
            BgpCapability::AddPath(families),
            BgpCapability::MultiProtocolExtensions(AddressType::Ipv4Unicast),
            BgpCapability::MultiProtocolExtensions(AddressType::Ipv6Unicast),
        ],
    }
}

/// An update without announcements in its body cannot fail to be read, whatever
/// attributes it carries.
pub proof fn law_no_body_no_error(msg: BgpUpdateMessage)
    requires
        msg.nlri@.len() == 0,
    ensures
        !msg.lacks_nexthop(),
        msg.meaning().announcements.len() <= 1,
{
}

/// No announcement of a message goes to a link-local nexthop that the message
/// names beside a global one: the meaning does not depend on it.
pub proof fn law_local_nexthop_ignored(
    attrs: Seq<PathAttribute>,
    global: Ipv6Addr,
    local: Option<Ipv6Addr>,
    other: Option<Ipv6Addr>,
    nlri: Vec<Ipv6UnicastAddress>,
)
    requires
        first_reach(attrs) == Some(
            MpReach::Ipv6Unicast { next_hop_global: global, next_hop_local: local, nlri },
        ),
    ensures
        reach_announcements(first_reach(attrs)) == reach_announcements(
            Some(MpReach::Ipv6Unicast { next_hop_global: global, next_hop_local: other, nlri }),
        ),
        reach_announcements(first_reach(attrs))[0].nexthop == IpAddr::V6(global),
{
}

/// Every prefix is read: there are as many routes as prefixes, and each route has
/// the network and the path id of the prefix at its place.
pub proof fn law_every_prefix_is_read(v4: Seq<Ipv4UnicastAddress>, v6: Seq<Ipv6UnicastAddress>)
    ensures
        routes_v4(v4).len() == v4.len(),
        forall|i: int|
            0 <= i < v4.len() ==> (#[trigger] routes_v4(v4)[i]).path_id == v4[i].path_id
                && routes_v4(v4)[i].nlri == IpNet::V4(v4[i].network),
        routes_v6(v6).len() == v6.len(),
        forall|i: int|
            0 <= i < v6.len() ==> (#[trigger] routes_v6(v6)[i]).path_id == v6[i].path_id
                && routes_v6(v6)[i].nlri == IpNet::V6(v6[i].network),
{
}

/// What is in an update is what its announcements and withdrawals hold.
pub proof fn law_update_shows_its_parts(update: Update)
    ensures
        update@.withdrawals == update.withdrawals@,
        update@.announcements.len() == update.announcements@.len(),
        forall|i: int|
            0 <= i < update.announcements@.len() ==> (
            #[trigger] update@.announcements[i]).nexthop == update.announcements@[i].nexthop
                && update@.announcements[i].routes == update.announcements@[i].routes@,
{
}

/// A nexthop is found wherever it stands among the attributes, and of
/// several the first one counts.
pub proof fn law_first_nexthop_counts(attrs: Seq<PathAttribute>, i: int)
    requires
        0 <= i < attrs.len(),
        attrs[i] is NextHop,
        forall|k: int| 0 <= k < i ==> !((#[trigger] attrs[k]) is NextHop),
    ensures
        first_nexthop(attrs) == Some(attrs[i]->NextHop_0),
    decreases i,
{
    if i > 0 {
        let rest = attrs.drop_first();
        assert(!(attrs[0] is NextHop));
        assert forall|k: int| 0 <= k < i - 1 implies !((#[trigger] rest[k]) is NextHop) by {
            assert(rest[k] == attrs[k + 1]);
        }
        law_first_nexthop_counts(rest, i - 1);
    }
}

/// Where no attribute is of that sort, none is found.
pub proof fn law_no_nexthop_to_find(attrs: Seq<PathAttribute>)
    requires
        forall|k: int| 0 <= k < attrs.len() ==> !((#[trigger] attrs[k]) is NextHop),
    ensures
        first_nexthop(attrs) is None,
    decreases attrs.len(),
{
    if attrs.len() > 0 {
        let rest = attrs.drop_first();
        assert(!(attrs[0] is NextHop));
        assert forall|k: int| 0 <= k < rest.len() implies !((#[trigger] rest[k]) is NextHop) by {
            assert(rest[k] == attrs[k + 1]);
        }
        law_no_nexthop_to_find(rest);
    }
}

/// An attribute that announces prefixes is found wherever it stands among the attributes, and of
/// several the first one counts.
pub proof fn law_first_reach_counts(attrs: Seq<PathAttribute>, i: int)
    requires
        0 <= i < attrs.len(),
        attrs[i] is MpReach,
        forall|k: int| 0 <= k < i ==> !((#[trigger] attrs[k]) is MpReach),
    ensures
        first_reach(attrs) == Some(attrs[i]->MpReach_0),
    decreases i,
{
    if i > 0 {
        let rest = attrs.drop_first();
        assert(!(attrs[0] is MpReach));
        assert forall|k: int| 0 <= k < i - 1 implies !((#[trigger] rest[k]) is MpReach) by {
            assert(rest[k] == attrs[k + 1]);
        }
        law_first_reach_counts(rest, i - 1);
    }
}

/// Where no attribute is of that sort, none is found.
pub proof fn law_no_reach_to_find(attrs: Seq<PathAttribute>)
    requires
        forall|k: int| 0 <= k < attrs.len() ==> !((#[trigger] attrs[k]) is MpReach),
    ensures
        first_reach(attrs) is None,
    decreases attrs.len(),
{
    if attrs.len() > 0 {
        let rest = attrs.drop_first();
        assert(!(attrs[0] is MpReach));
        assert forall|k: int| 0 <= k < rest.len() implies !((#[trigger] rest[k]) is MpReach) by {
            assert(rest[k] == attrs[k + 1]);
        }
        law_no_reach_to_find(rest);
    }
}

/// An attribute that withdraws prefixes is found wherever it stands among the attributes, and of
/// several the first one counts.
pub proof fn law_first_unreach_counts(attrs: Seq<PathAttribute>, i: int)
    requires
        0 <= i < attrs.len(),
        attrs[i] is MpUnreach,
        forall|k: int| 0 <= k < i ==> !((#[trigger] attrs[k]) is MpUnreach),
    ensures
        first_unreach(attrs) == Some(attrs[i]->MpUnreach_0),
    decreases i,
{
    if i > 0 {
        let rest = attrs.drop_first();
        assert(!(attrs[0] is MpUnreach));
        assert forall|k: int| 0 <= k < i - 1 implies !((#[trigger] rest[k]) is MpUnreach) by {
            assert(rest[k] == attrs[k + 1]);
        }
        law_first_unreach_counts(rest, i - 1);
    }
}

/// Where no attribute is of that sort, none is found.
pub proof fn law_no_unreach_to_find(attrs: Seq<PathAttribute>)
    requires
        forall|k: int| 0 <= k < attrs.len() ==> !((#[trigger] attrs[k]) is MpUnreach),
    ensures
        first_unreach(attrs) is None,
    decreases attrs.len(),
{
    if attrs.len() > 0 {
        let rest = attrs.drop_first();
        assert(!(attrs[0] is MpUnreach));
        assert forall|k: int| 0 <= k < rest.len() implies !((#[trigger] rest[k]) is MpUnreach) by {
            assert(rest[k] == attrs[k + 1]);
        }
        law_no_unreach_to_find(rest);
    }
}

/// Every prefix in the body of a message is announced over the message's first
/// nexthop, in order, ahead of what an attribute announces.
pub proof fn law_body_is_announced(msg: BgpUpdateMessage, i: int)
    requires
        msg.nlri@.len() > 0,
        0 <= i < msg.path_attributes@.len(),
        msg.path_attributes@[i] is NextHop,
        forall|k: int| 0 <= k < i ==> !((#[trigger] msg.path_attributes@[k]) is NextHop),
    ensures
        !msg.lacks_nexthop(),
        msg.meaning().announcements.len() >= 1,
        msg.meaning().announcements[0].nexthop == IpAddr::V4(msg.path_attributes@[i]->NextHop_0),
        msg.meaning().announcements[0].routes.len() == msg.nlri@.len(),
        forall|k: int|
            0 <= k < msg.nlri@.len() ==> (
            #[trigger] msg.meaning().announcements[0].routes[k]).path_id == msg.nlri@[k].path_id
                && msg.meaning().announcements[0].routes[k].nlri == IpNet::V4(
                msg.nlri@[k].network,
            ),
{
    law_first_nexthop_counts(msg.path_attributes@, i);
}

/// A message is refused exactly where its body announces prefixes and no attribute
/// names a nexthop.
pub proof fn law_refused_without_nexthop(msg: BgpUpdateMessage)
    ensures
        msg.lacks_nexthop() <==> msg.nlri@.len() > 0 && forall|k: int|
            0 <= k < msg.path_attributes@.len() ==> !((
            #[trigger] msg.path_attributes@[k]) is NextHop),
{
    let attrs = msg.path_attributes@;
    if forall|k: int| 0 <= k < attrs.len() ==> !((#[trigger] attrs[k]) is NextHop) {
        law_no_nexthop_to_find(attrs);
    } else {
        let k = choose|k: int| 0 <= k < attrs.len() && (#[trigger] attrs[k]) is NextHop;
        lemma_nexthop_found(attrs, k);
    }
}

proof fn lemma_nexthop_found(attrs: Seq<PathAttribute>, k: int)
    requires
        0 <= k < attrs.len(),
        attrs[k] is NextHop,
    ensures
        first_nexthop(attrs) is Some,
    decreases k,
{
    if k > 0 && !(attrs[0] is NextHop) {
        lemma_nexthop_found(attrs.drop_first(), k - 1);
    }
}

/// Every prefix of the first attribute that announces any is announced, in order,
/// over the nexthop that the attribute names, behind what the body announces.
pub proof fn law_attribute_is_announced(msg: BgpUpdateMessage, i: int)
    requires
        0 <= i < msg.path_attributes@.len(),
        msg.path_attributes@[i] is MpReach,
        forall|k: int| 0 <= k < i ==> !((#[trigger] msg.path_attributes@[k]) is MpReach),
    ensures
        ({
            let body: int = if msg.nlri@.len() > 0 {
                1
            } else {
                0
            };
            let all = msg.meaning().announcements;
            match msg.path_attributes@[i]->MpReach_0 {
                MpReach::Ipv4Unicast { next_hop, next_hop_local: _, nlri } => {
                    &&& all.len() == body + 1
                    &&& all[body].nexthop == next_hop
                    &&& all[body].routes.len() == nlri@.len()
                    &&& forall|k: int|
                        0 <= k < nlri@.len() ==> all[body].routes[k].path_id == (
                        #[trigger] nlri@[k]).path_id && all[body].routes[k].nlri == IpNet::V4(
                            nlri@[k].network,
                        )
                },
                MpReach::Ipv6Unicast { next_hop_global, next_hop_local: _, nlri } => {
                    &&& all.len() == body + 1
                    &&& all[body].nexthop == IpAddr::V6(next_hop_global)
                    &&& all[body].routes.len() == nlri@.len()
                    &&& forall|k: int|
                        0 <= k < nlri@.len() ==> all[body].routes[k].path_id == (
                        #[trigger] nlri@[k]).path_id && all[body].routes[k].nlri == IpNet::V6(
                            nlri@[k].network,
                        )
                },
                MpReach::Other => all.len() == body,
            }
        }),
{
    law_first_reach_counts(msg.path_attributes@, i);
}

/// Without an attribute that announces prefixes, only the body does.
pub proof fn law_only_the_body_is_announced(msg: BgpUpdateMessage)
    requires
        forall|k: int|
            0 <= k < msg.path_attributes@.len() ==> !((
            #[trigger] msg.path_attributes@[k]) is MpReach),
    ensures
        msg.meaning().announcements.len() == if msg.nlri@.len() > 0 {
            1int
        } else {
            0
        },
{
    law_no_reach_to_find(msg.path_attributes@);
}

/// Every prefix that the message withdraws by itself is withdrawn, in order, ahead
/// of what an attribute withdraws.
pub proof fn law_withdrawn_prefixes_are_read(msg: BgpUpdateMessage)
    ensures
        msg.meaning().withdrawals.len() >= msg.withdraw_routes@.len(),
        forall|k: int|
            0 <= k < msg.withdraw_routes@.len() ==> (
            #[trigger] msg.meaning().withdrawals[k]).path_id == msg.withdraw_routes@[k].path_id
                && msg.meaning().withdrawals[k].nlri == IpNet::V4(msg.withdraw_routes@[k].network),
        (forall|k: int|
            0 <= k < msg.path_attributes@.len() ==> !((
            #[trigger] msg.path_attributes@[k]) is MpUnreach))
            ==> msg.meaning().withdrawals.len() == msg.withdraw_routes@.len(),
{
    let attrs = msg.path_attributes@;
    if forall|k: int| 0 <= k < attrs.len() ==> !((#[trigger] attrs[k]) is MpUnreach) {
        law_no_unreach_to_find(attrs);
    }
}

/// Every prefix of the first attribute that withdraws any is withdrawn, in order,
/// behind those that the message withdraws by itself.
pub proof fn law_attribute_is_withdrawn(msg: BgpUpdateMessage, i: int)
    requires
        0 <= i < msg.path_attributes@.len(),
        msg.path_attributes@[i] is MpUnreach,
        forall|k: int| 0 <= k < i ==> !((#[trigger] msg.path_attributes@[k]) is MpUnreach),
    ensures
        ({
            let own = msg.withdraw_routes@.len() as int;
            let all = msg.meaning().withdrawals;
            match msg.path_attributes@[i]->MpUnreach_0 {
                MpUnreach::Ipv4Unicast { nlri } => {
                    &&& all.len() == own + nlri@.len()
                    &&& forall|k: int|
                        0 <= k < nlri@.len() ==> all[own + k].path_id == (
                        #[trigger] nlri@[k]).path_id && all[own + k].nlri == IpNet::V4(
                            nlri@[k].network,
                        )
                },
                MpUnreach::Ipv6Unicast { nlri } => {
                    &&& all.len() == own + nlri@.len()
                    &&& forall|k: int|
                        0 <= k < nlri@.len() ==> all[own + k].path_id == (
                        #[trigger] nlri@[k]).path_id && all[own + k].nlri == IpNet::V6(
                            nlri@[k].network,
                        )
                },
                MpUnreach::Other => all.len() == own,
            }
        }),
{
    law_first_unreach_counts(msg.path_attributes@, i);
}

/// Every update that comes over an established session, is treated normally and
/// names a nexthop where its body needs one reaches the subscribers; no other event
/// does.
pub proof fn law_what_reaches_the_subscribers(
    established: bool,
    treatment: UpdateTreatment,
    msg: BgpUpdateMessage,
)
    ensures
        reaches_subscribers((PeerEvent::UpdateMsg { established, treatment, msg })) <==> established
            && treatment is Normal && (msg.nlri@.len() == 0 || exists|k: int|
            0 <= k < msg.path_attributes@.len() && (
            #[trigger] msg.path_attributes@[k]) is NextHop),
        !reaches_subscribers(PeerEvent::Other),
        !reaches_subscribers(PeerEvent::Failed),
{
    law_refused_without_nexthop(msg);
}

/// A peer is reached at its own address and the configured port, on the interface.
pub proof fn law_peer_sockets(ip: Ipv6Addr, port: u16, scope_id: u32)
    ensures
        peer_socket(ip, port, scope_id).ip == ip,
        peer_socket(ip, port, scope_id).port == port,
        peer_socket(ip, port, scope_id).scope_id == scope_id,
        peer_socket(ip, port, scope_id).flowinfo == 0,
{
}

} // verus!
