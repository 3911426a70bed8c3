use erez::bgp::{
    listen_addr, on_peer_event, peer_addrs, peer_plan, AddPathAddressFamily, AddressType,
    BgpCapability, BgpUpdateMessage, Ipv4UnicastAddress, Ipv6UnicastAddress, MissingNexthop,
    MpReach, MpUnreach, PathAttribute, PeerAction, PeerEvent, Route, SocketAddrV6, Update,
    UpdateTreatment,
};
use erez::config::BgpConfig;
use erez::net::{IpAddr, IpNet, Ipv4Addr, Ipv4Net, Ipv6Addr, Ipv6Net};

fn net4(bits: u32, path_id: Option<u32>) -> Ipv4UnicastAddress {
    Ipv4UnicastAddress { path_id, network: Ipv4Net { addr: Ipv4Addr { bits }, prefix_len: 24 } }
}

fn net6(bits: u128, path_id: Option<u32>) -> Ipv6UnicastAddress {
    Ipv6UnicastAddress { path_id, network: Ipv6Net { addr: Ipv6Addr { bits }, prefix_len: 64 } }
}

fn route4(bits: u32, path_id: Option<u32>) -> Route {
    Route { path_id, nlri: IpNet::V4(net4(bits, None).network) }
}

fn route6(bits: u128, path_id: Option<u32>) -> Route {
    Route { path_id, nlri: IpNet::V6(net6(bits, None).network) }
}

fn message() -> BgpUpdateMessage {
    BgpUpdateMessage { withdraw_routes: vec![], path_attributes: vec![], nlri: vec![] }
}

#[test]
fn empty_message_changes_nothing() {
    let update = Update::try_from(&message()).unwrap();
    assert!(update.announcements.is_empty());
    assert!(update.withdrawals.is_empty());
}

#[test]
fn body_announcement_needs_a_nexthop() {
    let mut msg = message();
    msg.nlri = vec![net4(0x0a00_0000, None)];
    assert_eq!(Update::try_from(&msg).unwrap_err(), MissingNexthop);

    msg.path_attributes = vec![
        PathAttribute::Other,
        PathAttribute::NextHop(Ipv4Addr { bits: 7 }),
        PathAttribute::NextHop(Ipv4Addr { bits: 8 }),
    ];
    let update = Update::try_from(&msg).unwrap();
    assert_eq!(update.announcements.len(), 1);
    assert_eq!(update.announcements[0].nexthop, IpAddr::V4(Ipv4Addr { bits: 7 }));
    assert_eq!(update.announcements[0].routes, vec![route4(0x0a00_0000, None)]);
}

#[test]
fn body_comes_before_attributes() {
    let mut msg = message();
    msg.nlri = vec![net4(1 << 8, Some(1))];
    msg.withdraw_routes = vec![net4(2 << 8, None)];
    msg.path_attributes = vec![
        PathAttribute::MpUnreach(MpUnreach::Ipv6Unicast { nlri: vec![net6(3 << 64, Some(3))] }),
        PathAttribute::MpReach(MpReach::Ipv6Unicast {
            next_hop_global: Ipv6Addr { bits: 9 },
            next_hop_local: Some(Ipv6Addr { bits: 0xfe80 << 112 }),
            nlri: vec![net6(4 << 64, None), net6(5 << 64, Some(5))],
        }),
        PathAttribute::NextHop(Ipv4Addr { bits: 7 }),
    ];
    let update = Update::try_from(&msg).unwrap();
    assert_eq!(update.announcements.len(), 2);
    assert_eq!(update.announcements[0].routes, vec![route4(1 << 8, Some(1))]);
    assert_eq!(update.announcements[1].nexthop, IpAddr::V6(Ipv6Addr { bits: 9 }));
    assert_eq!(
        update.announcements[1].routes,
        vec![route6(4 << 64, None), route6(5 << 64, Some(5))]
    );
    assert_eq!(update.withdrawals, vec![route4(2 << 8, None), route6(3 << 64, Some(3))]);
}

#[test]
fn multiprotocol_ipv4_is_read() {
    let mut msg = message();
    let next_hop = IpAddr::V6(Ipv6Addr { bits: 6 });
    msg.path_attributes = vec![
        PathAttribute::MpReach(MpReach::Ipv4Unicast {
            next_hop,
            next_hop_local: None,
            nlri: vec![net4(1 << 8, None)],
        }),
        PathAttribute::MpUnreach(MpUnreach::Ipv4Unicast { nlri: vec![net4(2 << 8, None)] }),
        // Only the first attribute of a kind counts.
        PathAttribute::MpUnreach(MpUnreach::Ipv4Unicast { nlri: vec![net4(3 << 8, None)] }),
    ];
    let update = Update::try_from(&msg).unwrap();
    assert_eq!(update.announcements[0].nexthop, next_hop);
    assert_eq!(update.announcements[0].routes, vec![route4(1 << 8, None)]);
    assert_eq!(update.withdrawals, vec![route4(2 << 8, None)]);
}

#[test]
fn local_nexthop_does_not_matter() {
    let announce = |next_hop_local| {
        let mut msg = message();
        msg.path_attributes = vec![PathAttribute::MpReach(MpReach::Ipv6Unicast {
            next_hop_global: Ipv6Addr { bits: 9 },
            next_hop_local,
            nlri: vec![net6(4 << 64, None)],
        })];
        let update = Update::try_from(&msg).unwrap();
        (update.announcements[0].nexthop, update.announcements[0].routes.clone())
    };
    assert_eq!(announce(None), announce(Some(Ipv6Addr { bits: 0xfe80 << 112 })));
}

#[test]
fn other_families_are_passed_over() {
    let mut msg = message();
    msg.path_attributes = vec![
        PathAttribute::MpReach(MpReach::Other),
        PathAttribute::MpUnreach(MpUnreach::Other),
    ];
    let update = Update::try_from(&msg).unwrap();
    assert!(update.announcements.is_empty() && update.withdrawals.is_empty());
}

#[test]
fn only_normal_updates_of_established_sessions_pass() {
    let event = |established, treatment, msg| PeerEvent::UpdateMsg { established, treatment, msg };
    assert!(matches!(
        on_peer_event(&event(true, UpdateTreatment::Normal, message())),
        PeerAction::Forward(_)
    ));
    assert!(matches!(
        on_peer_event(&event(false, UpdateTreatment::Normal, message())),
        PeerAction::Ignore
    ));
    assert!(matches!(
        on_peer_event(&event(true, UpdateTreatment::TreatAsWithdraw, message())),
        PeerAction::SkipTreatment(UpdateTreatment::TreatAsWithdraw)
    ));
    let mut bad = message();
    bad.nlri = vec![net4(0, None)];
    assert!(matches!(
        on_peer_event(&event(true, UpdateTreatment::Normal, bad)),
        PeerAction::SkipMalformed(MissingNexthop)
    ));
    assert!(matches!(on_peer_event(&PeerEvent::Other), PeerAction::Ignore));
    assert!(matches!(on_peer_event(&PeerEvent::Failed), PeerAction::Stop));
}

fn config() -> BgpConfig {
    BgpConfig {
        asn: 4181,
        bgp_id: Ipv4Addr { bits: 0xac10_0001 },
        peer_ips: vec![Ipv6Addr { bits: 1 }, Ipv6Addr { bits: 2 }],
        port: 1179,
        interface: None,
    }
}

#[test]
fn peers_are_reached_at_the_configured_port() {
    let listen = listen_addr(&config());
    assert_eq!(
        listen,
        SocketAddrV6 { ip: Ipv6Addr { bits: 0 }, port: 1179, flowinfo: 0, scope_id: 0 }
    );
    let addrs = peer_addrs(&config(), 3);
    assert_eq!(addrs.len(), 2);
    assert_eq!(
        addrs[1],
        SocketAddrV6 { ip: Ipv6Addr { bits: 2 }, port: 1179, flowinfo: 0, scope_id: 3 }
    );
}

#[test]
fn peers_are_offered_capabilities() {
    let addr = peer_addrs(&config(), 3)[0];
    let plan = peer_plan(&config(), addr, 240);
    assert_eq!((plan.asn, plan.open_delay, plan.hold_timer), (4181, 5, 240));
    assert_eq!(plan.addr, addr);
    assert_eq!(plan.bgp_id, config().bgp_id);
    let expected = vec![
        AddPathAddressFamily { address_type: AddressType::Ipv4Unicast, send: false, receive: true },
        AddPathAddressFamily { address_type: AddressType::Ipv6Unicast, send: false, receive: true },
    ];
    assert!(matches!(&plan.capabilities[0], BgpCapability::AddPath(f) if *f == expected));
    assert!(matches!(
        plan.capabilities[1],
        BgpCapability::MultiProtocolExtensions(AddressType::Ipv4Unicast)
    ));
    assert!(matches!(
        plan.capabilities[2],
        BgpCapability::MultiProtocolExtensions(AddressType::Ipv6Unicast)
    ));
}

#[test]
fn missing_nexthop_has_a_text() {
    assert_eq!(MissingNexthop.to_text(), "bgp update missing nexthop");
}
