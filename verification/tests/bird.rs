use erez::bird::config::{Neighbour, Peer, Route};
use erez::bird::daemon::{
    config_path, namespace, parse_protocols, parse_routes, protocols_fit, Bird, ProtocolsError,
    RouteEntry, RouteEntryError,
};
use erez::net::{parse_net, IpAddr, IpNet, Ipv4Addr, Ipv4Net, Ipv6Addr, Ipv6Net};
use erez::ns::{NetNs, SetupStep};

const PROTOCOLS: &str = "BIRD 2.14 ready.
Name       Proto      Table      State  Since         Info
device1    Device     ---        up     12:00:00.000  
peer_b     BGP        ---        up     12:00:01.000  Established   
peer_c     BGP        ---        start  12:00:01.000  Connect       

static1    Static     master4    up
";

const ROUTES: &str = "BIRD 2.14 ready.
Table master4:
172.0.0.0/24         unicast [peer_a 12:00:00.000] * (100) [i]
\tvia fe80::1 on veth04a1
10.0.0.0/8           blackhole [static1 12:00:00.000] * (200)
not a route
10.1.0.0/16 unicast
10.2.0.0/16 unicast [peer

Table master6:
3fff::1/128          unicast [peer_b] * (100)
";

fn net(text: &str) -> IpNet {
    parse_net(text).unwrap()
}

fn peer(name: &str) -> Peer {
    Peer::new(name.to_string(), Neighbour::from(Ipv6Addr { bits: 1 }), 64512)
}

#[test]
fn protocols_are_read_by_column() {
    assert!(protocols_fit(PROTOCOLS));
    let entries = parse_protocols(PROTOCOLS).unwrap();
    let got: Vec<_> = entries
        .iter()
        .map(|e| (e.name.as_str(), e.proto.as_str(), e.state.as_str()))
        .collect();
    assert_eq!(
        got,
        vec![
            ("device1", "Device", ""),
            ("peer_b", "BGP", "Established"),
            ("peer_c", "BGP", "Connect"),
            ("static1", "Static", ""),
        ]
    );
}

#[test]
fn protocols_need_a_header() {
    assert_eq!(parse_protocols("").unwrap_err(), ProtocolsError::MissingHeader);
    assert_eq!(parse_protocols("a\n Name Proto Info\n").unwrap_err(), ProtocolsError::MissingHeader);
    assert_eq!(
        parse_protocols("Name Info\n").unwrap_err(),
        ProtocolsError::MissingProtoColumn
    );
    assert_eq!(
        parse_protocols("Name Proto\n").unwrap_err(),
        ProtocolsError::MissingInfoColumn
    );
    assert!(parse_protocols("Name Proto Info\r\n").unwrap().is_empty());
}

#[test]
fn protocol_lines_must_reach_the_columns() {
    let header = "Name Proto Info\n";
    assert!(!protocols_fit(&format!("{header}abc\n")));
    assert!(protocols_fit(&format!("{header}abcde\n")));
    assert!(!protocols_fit(&format!("{header}abcdéx\n")));
    assert!(protocols_fit(&format!("{header}abcé x\n")));
    assert!(protocols_fit("nothing\nto read"));
}

#[test]
fn sessions_are_up_when_established() {
    let entries = parse_protocols(PROTOCOLS).unwrap();
    let mut bird = Bird::new(1, 64512);
    assert!(bird.all_peers_established(&entries));
    bird.add_peer(peer("peer_b"));
    assert!(bird.all_peers_established(&entries));
    assert!(!bird.all_peers_established(&vec![]));
    bird.add_peer(peer("peer_c"));
    assert!(!bird.all_peers_established(&entries));
}

#[test]
fn sessions_must_be_bgp() {
    let mut bird = Bird::new(1, 64512);
    bird.add_peer(peer("static1"));
    let listing = "Name    Proto  Info\nstatic1 Static Established\n";
    let mut entries = parse_protocols(listing).unwrap();
    assert!(!bird.all_peers_established(&entries));
    entries[0].proto = "BGP".to_string();
    assert!(bird.all_peers_established(&entries));
}

#[test]
fn routes_are_read() {
    let got: Vec<_> =
        parse_routes(ROUTES).iter().map(|r| (r.prefix.to_text(), r.peer.clone())).collect();
    let expected: Vec<_> = [
        ("172.0.0.0/24", "peer_a"),
        ("10.0.0.0/8", "static1"),
        ("3fff::1/128", "peer_b"),
    ]
    .iter()
    .map(|(a, b)| (a.to_string(), b.to_string()))
    .collect();
    assert_eq!(got, expected);
}

#[test]
fn route_lines_are_checked() {
    let err = |line: &str| RouteEntry::from_str(line).unwrap_err();
    assert_eq!(err("  \t"), RouteEntryError::EmptyLine);
    assert_eq!(err("10.0.0.0 unicast [a ]"), RouteEntryError::BadPrefix);
    assert_eq!(err("10.0.0.0/8 unicast"), RouteEntryError::MissingBracket);
    assert_eq!(err("10.0.0.0/8 [peer"), RouteEntryError::MalformedPeer);
    let entry = RouteEntry::from_str(" 10.0.0.0/8 x [] [y ]").unwrap();
    assert_eq!((entry.prefix, entry.peer.as_str()), (net("10.0.0.0/8"), ""));
    assert_eq!(
        RouteEntry::with_prefix(None, "[a]").unwrap_err(),
        RouteEntryError::BadPrefix
    );
    let entry = RouteEntry::with_prefix(Some(net("::/0")), "é[ü]").unwrap();
    assert_eq!(entry.peer, "ü");
}

#[test]
fn routes_go_to_their_family() {
    let mut bird = Bird::new(7, 64512);
    bird.announce_route(Route::blackhole(net("172.0.0.0/24")));
    bird.announce_routes(vec![
        Route::blackhole(net("3fff::/64")),
        Route::blackhole(net("10.0.0.0/8")),
        Route::blackhole(net("3fff:1::/64")),
    ]);
    let texts = |routes: &[Route]| routes.iter().map(|r| r.to_text()).collect::<Vec<_>>();
    assert_eq!(texts(&bird.routes_v4), vec!["172.0.0.0/24 blackhole", "10.0.0.0/8 blackhole"]);
    assert_eq!(texts(&bird.routes_v6), vec!["3fff::/64 blackhole", "3fff:1::/64 blackhole"]);
    assert_eq!((bird.id, bird.asn), (7, 64512));
}

#[test]
fn withdrawal_undoes_announcement() {
    let mut bird = Bird::new(7, 64512);
    let route = net("172.0.0.0/24");
    bird.announce_route(Route::blackhole(net("10.0.0.0/8")));
    bird.announce_route(Route::blackhole(route));
    bird.announce_route(Route::blackhole(route));
    bird.withdraw_route(route);
    assert_eq!(bird.routes_v4, vec![Route::blackhole(net("10.0.0.0/8"))]);
    bird.withdraw_route(net("3fff::/64"));
    assert_eq!(bird.routes_v4.len(), 1);
}

#[test]
fn sessions_are_built_up() {
    let plain = peer("a");
    assert_eq!((plain.port, plain.remote_as), (179, 64512));
    assert!(plain.interface.is_none() && plain.connect_delay_seconds.is_none());
    assert!(!plain.add_paths_tx && !plain.next_hop_keep_ebgp && !plain.next_hop_self);
    let full = plain
        .add_paths_tx(true)
        .connect_delay_seconds(3)
        .interface("eth0".to_string())
        .next_hop_keep_ebgp(true)
        .next_hop_self(true)
        .port(1179);
    assert_eq!(full.port, 1179);
    assert_eq!(full.interface.as_deref(), Some("eth0"));
    assert_eq!(full.connect_delay_seconds, Some(3));
    assert!(full.add_paths_tx && full.next_hop_keep_ebgp && full.next_hop_self);
    assert_eq!(full.name, "a");
}

#[test]
fn neighbours_are_addresses_or_ranges() {
    let v4 = Ipv4Addr { bits: 1 };
    let v6 = Ipv6Addr { bits: 2 };
    let net4 = Ipv4Net { addr: v4, prefix_len: 8 };
    let net6 = Ipv6Net { addr: v6, prefix_len: 8 };
    assert_eq!(Neighbour::from(v4), Neighbour::Ip(IpAddr::V4(v4)));
    assert_eq!(Neighbour::from(v6), Neighbour::Ip(IpAddr::V6(v6)));
    assert_eq!(Neighbour::from(IpAddr::V6(v6)), Neighbour::from(v6));
    assert_eq!(Neighbour::from(net4), Neighbour::Range(IpNet::V4(net4)));
    assert_eq!(Neighbour::from(net6), Neighbour::Range(IpNet::V6(net6)));
    assert_eq!(Neighbour::from(IpNet::V4(net4)), Neighbour::from(net4));
}

#[test]
fn bird_has_directories_of_its_own() {
    assert_eq!(config_path(), "/etc/bird/bird.conf");
    let builder = namespace(NetNs::with_id("edge", 1));
    assert_eq!(builder.display_name(), "edge/bird");
    let steps = builder.setup();
    assert_eq!(steps.len(), 5);
    let want = vec!["/tmp", "/run/bird", "/etc/bird"];
    assert!(matches!(&steps[3], SetupStep::MountTmpfs { dirs } if *dirs == want));
}

#[test]
fn bird_errors_have_texts() {
    assert_eq!(ProtocolsError::MissingHeader.to_text(), "Missing header in protocols output");
    assert_eq!(ProtocolsError::MissingProtoColumn.to_text(), "Missing Proto column");
    assert_eq!(ProtocolsError::MissingInfoColumn.to_text(), "Missing Info column");
    assert_eq!(RouteEntryError::EmptyLine.to_text(), "Empty route line");
    assert_eq!(RouteEntryError::BadPrefix.to_text(), "invalid IP address syntax");
    assert_eq!(RouteEntryError::MissingBracket.to_text(), "Missing '[' in route line");
    assert_eq!(RouteEntryError::MalformedPeer.to_text(), "Malformed peer name");
}
