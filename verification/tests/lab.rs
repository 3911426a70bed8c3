use erez::bird::config::Neighbour;
use erez::net::{parse_net, IpAddr, IpNet, Ipv4Addr, Ipv4Net, Ipv6Addr, Ipv6Net};
use erez::netlink::{
    bridge_get_ports, link_get_index, link_get_link_local, link_get_stats,
    route_add_default_via_v6, AddressAttribute, AddressMessage, DefaultRoute, LinkAttribute,
    LinkError, LinkMessage,
};
use erez::ns::{
    cleanup_netns, exec_checked, set_stderr_suppressed, NetNs, Ns, SetupStep, StderrGate,
};
use erez::topology::{
    peer, set_ip_forwarding, Bridge, Edge, EndStep, LinkIds, LinkImpairment, LinksExhausted,
    Router, RouterIds, RouterInterface, ScopedAddr, SubnetError, Transit, VethEnd, VethPair,
    VethPlacement,
};

fn ns(name: &str, pid: i32) -> Ns {
    Ns::builder(NetNs::with_id(name, 0x04a1)).build(pid)
}

fn v4net(text: &str) -> Ipv4Net {
    match parse_net(text).unwrap() {
        IpNet::V4(net) => net,
        IpNet::V6(_) => panic!("not IPv4"),
    }
}

fn v6net(text: &str) -> Ipv6Net {
    match parse_net(text).unwrap() {
        IpNet::V6(net) => net,
        IpNet::V4(_) => panic!("not IPv6"),
    }
}

fn link_local(host: u128) -> Ipv6Addr {
    Ipv6Addr { bits: (0xfe80 << 112) + host }
}

fn bridge() -> Bridge {
    Bridge { ns: ns("edge", 10), name: "br0001".to_string(), link_local: link_local(9) }
}

#[test]
fn namespaces_are_named() {
    let net_ns = NetNs::with_id("edge", 0x04a1);
    assert_eq!(net_ns.display_name(), "edge");
    assert_eq!(net_ns.system_name(), "erez_edge_04a1");
    assert_eq!(net_ns.path(), "/var/run/netns/erez_edge_04a1");
    assert_eq!(net_ns.clone().system_name(), net_ns.system_name());
}

#[test]
fn namespaces_of_one_name_are_told_apart() {
    let a = NetNs::with_id("dup", 1);
    let b = NetNs::with_id("dup", 2);
    assert_ne!(a.system_name(), b.system_name());
    let random = NetNs::new("dup");
    assert_eq!(random.display_name(), "dup");
    assert!(random.system_name().starts_with("erez_dup_"));
    assert_eq!(random.system_name().len(), "erez_dup_0000".len());
}

#[test]
fn random_numbers_are_not_always_the_same() {
    let names: Vec<String> =
        (0..16).map(|_| NetNs::new("x").system_name().to_string()).collect();
    assert!(names.iter().any(|n| *n != names[0]));
}

#[test]
fn own_namespaces_are_cleaned_up() {
    let names: Vec<String> = ["erez_a_0001", "erezx", "other", "erez_", "x_erez_"]
        .iter()
        .map(|s| s.to_string())
        .collect();
    assert_eq!(cleanup_netns(&names), vec!["erez_a_0001", "erez_"]);
    let own = NetNs::new("z").system_name().to_string();
    assert_eq!(cleanup_netns(&vec![own.clone()]), vec![own]);
}

#[test]
fn executors_are_named_after_their_namespaces() {
    let plain = Ns::builder(NetNs::with_id("edge", 1));
    assert_eq!(plain.display_name(), "edge");
    assert_eq!(plain.thread_name(), "ns_edge");
    let mounted = Ns::builder(NetNs::with_id("edge", 1)).mount("bird", &["/run/bird", "/etc/bird"]);
    assert_eq!(mounted.display_name(), "edge/bird");
    assert_eq!(mounted.thread_name(), "ns_edge/bird");
    let built = mounted.build(42);
    assert_eq!((built.display_name(), built.pid()), ("edge/bird", 42));
    assert_eq!(built.net_ns().display_name(), "edge");
    assert_eq!(built.clone().display_name(), "edge/bird");
}

#[test]
fn executors_are_set_up() {
    let steps = Ns::builder(NetNs::with_id("edge", 1)).setup();
    assert_eq!(steps.len(), 5);
    assert!(matches!(&steps[0], SetupStep::EnterNetNs { path } if path == "/var/run/netns/erez_edge_0001"));
    assert!(matches!(&steps[1], SetupStep::EnableLoopback));
    assert!(matches!(&steps[2], SetupStep::DisableDad));
    assert!(matches!(&steps[3], SetupStep::MountTmpfs { dirs } if *dirs == vec!["/tmp"]));
    assert!(matches!(&steps[4], SetupStep::RedirectStderr { prefix } if prefix == "edge"));
    let bare = Ns::builder(NetNs::with_id("edge", 1)).mount("none", &[]).setup();
    assert_eq!(bare.len(), 5);
    assert!(matches!(&bare[3], SetupStep::MountTmpfs { dirs } if *dirs == vec!["/tmp"]));
    assert!(matches!(&bare[4], SetupStep::RedirectStderr { prefix } if prefix == "edge/none"));
}

#[test]
fn scratch_space_stays_private() {
    let steps = Ns::builder(NetNs::with_id("edge", 1))
        .mount("a", &["/run/a"])
        .mount("b", &["/run/b", "/etc/b"])
        .setup();
    let want = vec!["/tmp", "/run/a", "/run/b", "/etc/b"];
    assert!(matches!(&steps[3], SetupStep::MountTmpfs { dirs } if *dirs == want));
    assert!(matches!(&steps[4], SetupStep::RedirectStderr { prefix } if prefix == "edge/b"));
}

#[test]
fn commands_are_checked() {
    assert_eq!(exec_checked(true, Some(0), vec![1, 2], "x").unwrap(), vec![1, 2]);
    assert_eq!(exec_checked(true, None, vec![], "").unwrap(), Vec::<u8>::new());
    let err = exec_checked(false, Some(3), vec![1], " no way\n").unwrap_err();
    assert_eq!((err.code, err.stderr.as_str()), (3, "no way"));
}

#[test]
fn standard_error_is_prefixed_or_suppressed() {
    let mut gate = StderrGate { suppressed: false };
    assert_eq!(gate.pipe_with_prefix("edge", "hi\n").unwrap(), "[edge] hi\n");
    set_stderr_suppressed(&mut gate, true);
    assert!(gate.pipe_with_prefix("edge", "hi\n").is_none());
    set_stderr_suppressed(&mut gate, false);
    assert!(gate.pipe_with_prefix("edge", "hi\n").is_some());
}

#[test]
fn router_ids_count_up() {
    let mut ids = RouterIds::new();
    assert_eq!((ids.next_router_id(), ids.next_router_id()), (1, 2));
    let mut last = RouterIds { next: u32::MAX };
    assert_eq!((last.next_router_id(), last.next_router_id()), (u32::MAX, 0));
}

#[test]
fn links_between_routers_are_given_out() {
    let mut ids = LinkIds::new();
    let (a, b) = ids.next_interrouter_v6_link().unwrap();
    assert_eq!((a, b), (v6net("3fff:ffff:1::1/64"), v6net("3fff:ffff:1::2/64")));
    let (a, _) = ids.next_interrouter_v6_link().unwrap();
    assert_eq!(a, v6net("3fff:ffff:2::1/64"));
    let mut last = LinkIds { next: 0xffff };
    assert_eq!(last.next_interrouter_v6_link().unwrap().1, v6net("3fff:ffff:ffff::2/64"));
    assert_eq!(last.next_interrouter_v6_link(), Err(LinksExhausted));
}

#[test]
fn interfaces_are_named_by_number() {
    assert_eq!(Bridge::name_with_id(0x04a1), "br04a1");
    let (veth, other) = VethPair::names_with_id(0xf);
    assert_eq!((veth.as_str(), other.as_str()), ("veth000f", "peer000f"));
    assert_eq!(Bridge::random_name().len(), 6);
    let (veth, other) = VethPair::random_names();
    assert_eq!(veth[4..], other[4..]);
}

#[test]
fn mtu_covers_bridge_and_ports() {
    let ports = vec!["a".to_string(), "b".to_string()];
    assert_eq!(bridge().mtu_links(ports), vec!["br0001", "a", "b"]);
}

#[test]
fn ends_are_placed() {
    let addr = parse_net("192.168.0.1/24").unwrap();
    let placed = VethPlacement::Addr(ns("a", 5), addr);
    assert_eq!(placed.ns().pid(), 5);
    let steps = placed.setup_end();
    assert!(matches!(steps[0], EndStep::MoveToNs(5)));
    assert!(matches!(steps[1], EndStep::AddAddr(a) if a == addr));
    assert!(matches!(steps[2], EndStep::SetUp));

    let bare = VethPlacement::Bare(ns("b", 6)).setup_end();
    assert!(matches!(bare[0], EndStep::MoveToNs(6)) && matches!(bare[1], EndStep::SetUp));
    assert_eq!(bare.len(), 2);

    let port = VethPlacement::BridgePort(bridge());
    assert_eq!(port.ns().pid(), 10);
    let steps = port.setup_end();
    assert!(matches!(&steps[1], EndStep::JoinBridge(name) if name == "br0001"));
    assert_eq!(steps.len(), 3);
}

#[test]
fn bridge_ports_are_known_by_the_bridge() {
    let pair = VethPair::new(
        &VethPlacement::Bare(ns("a", 5)),
        &VethPlacement::BridgePort(bridge()),
        VethPair::names_with_id(1),
        (link_local(1), link_local(2)),
    );
    assert_eq!(pair.device.name, "veth0001");
    assert_eq!(pair.device.link_local, link_local(1));
    assert_eq!(pair.peer.name, "br0001");
    assert_eq!(pair.peer.link_local, link_local(9));
    assert_eq!(pair.peer.ns.display_name(), "edge");
    assert_eq!(pair.peer_addr().to_text(), "fe80::9%veth0001");
    assert_eq!(pair.device_addr().to_text(), "fe80::1%br0001");
}

#[test]
fn scoped_addresses_as_text() {
    let addr = ScopedAddr { addr: link_local(1), interface: "eth0".to_string() };
    assert_eq!(addr.to_text(), "fe80::1%eth0");
}

#[test]
fn links_are_impaired() {
    let end = VethEnd { ns: ns("a", 5), name: "veth0001".to_string(), link_local: link_local(1) };
    let commands: Vec<String> = end
        .impair(LinkImpairment { delay_ms: 50, rate_kbit: 1_000_000 })
        .iter()
        .map(|c| c.join(" "))
        .collect();
    assert_eq!(
        commands,
        vec![
            "qdisc replace dev veth0001 root handle 1: htb default 2",
            "class replace dev veth0001 parent 1: classid 1:2 htb rate 1000000kbit",
            "qdisc replace dev veth0001 parent 1:2 handle 10: netem delay 50ms",
        ]
    );
    assert_eq!(
        end.impair_latency(7).join(" "),
        "qdisc replace dev veth0001 root netem delay 7ms"
    );
}

#[test]
fn metals_are_numbered_from_one() {
    let mut interface =
        RouterInterface::new(bridge(), v4net("172.16.0.0/24"), v6net("3fff:172:16::/64"));
    for i in 1..=3u32 {
        let (v4, v6) = interface.next_sitelocals().unwrap();
        assert_eq!(v4, Ipv4Net { addr: Ipv4Addr { bits: 0xac10_0000 + i }, prefix_len: 32 });
        assert_eq!(v6.prefix_len, 128);
        assert_eq!(v6.addr.bits, v6net("3fff:172:16::/64").addr.bits + u128::from(i));
    }
}

#[test]
fn subnets_run_out() {
    let mut interface = RouterInterface::new(bridge(), v4net("10.0.0.0/30"), v6net("3fff::/64"));
    assert!(interface.next_sitelocals().is_ok());
    assert_eq!(interface.next_sitelocals().unwrap().0.addr.bits, 0x0a00_0002);
    assert_eq!(interface.next_sitelocals(), Err(SubnetError::Ipv4Exhausted));
    assert_eq!(interface.next_sitelocals(), Err(SubnetError::Ipv4Exhausted));

    let mut interface = RouterInterface::new(bridge(), v4net("10.0.0.0/24"), v6net("3fff::/127"));
    assert_eq!(interface.next_sitelocals().unwrap().1, v6net("3fff::1/128"));
    assert_eq!(interface.next_sitelocals(), Err(SubnetError::Ipv6Exhausted));
}

#[test]
fn small_subnets_give_all_addresses() {
    let mut interface = RouterInterface::new(bridge(), v4net("10.0.0.6/31"), v6net("3fff::/64"));
    assert_eq!(interface.next_sitelocals().unwrap().0.addr.bits, 0x0a00_0006);
    assert_eq!(interface.next_sitelocals().unwrap().0.addr.bits, 0x0a00_0007);
    assert!(interface.next_sitelocals().is_err());
    let mut single = RouterInterface::new(bridge(), v4net("10.0.0.6/32"), v6net("3fff::/128"));
    assert_eq!(single.next_sitelocals(), Err(SubnetError::Ipv6Exhausted));
    assert_eq!(single.next_sitelocals(), Err(SubnetError::Ipv4Exhausted));
}

#[test]
fn edges_take_sessions_with_servers() {
    let clients = vec![("erezd".to_string(), 1179)];
    let edge = Router::<Edge>::new(
        ns("edge", 10),
        3,
        4181,
        bridge(),
        v4net("172.16.0.0/24"),
        v6net("3fff:172:16::/64"),
        &clients,
    );
    assert_eq!((edge.bird.id, edge.bird.asn), (3, 4181));
    assert_eq!(edge.bird.peers.len(), 2);
    let range = Neighbour::from(parse_net("fe80::/10").unwrap());
    let bird = &edge.bird.peers[0];
    assert_eq!((bird.name.as_str(), bird.port), ("metal_bird", 179));
    assert_eq!(bird.neighbour, range);
    assert!(bird.next_hop_self && bird.add_paths_tx && !bird.next_hop_keep_ebgp);
    let client = &edge.bird.peers[1];
    assert_eq!((client.name.as_str(), client.port), ("metal_erezd", 1179));
    assert_eq!(client.interface.as_deref(), Some("br0001"));
    assert!(!client.next_hop_self && client.add_paths_tx && client.next_hop_keep_ebgp);
}

#[test]
fn metals_peer_with_their_edge() {
    let mut edge = Router::<Edge>::new(
        ns("edge", 10),
        3,
        4181,
        bridge(),
        v4net("172.16.0.0/24"),
        v6net("3fff:172:16::/64"),
        &vec![],
    );
    let link = VethPair::new(
        &VethPlacement::Bare(ns("metal", 11)),
        &VethPlacement::BridgePort(bridge()),
        VethPair::names_with_id(1),
        (link_local(1), link_local(2)),
    );
    let (v4, v6) = edge.kind.interface.next_sitelocals().unwrap();
    let metal = edge.add_metal(ns("metal", 11), 4, &link, v4, v6);
    assert_eq!(metal.uplink, "veth0001");
    assert_eq!((metal.sitelocal_v4, metal.sitelocal_v6), (v4, v6));
    let session = &metal.bird.peers[0];
    assert_eq!((session.name.as_str(), session.remote_as), ("edge", 4181));
    assert_eq!(session.neighbour, Neighbour::from(link_local(9)));
    assert_eq!(session.interface.as_deref(), Some("veth0001"));
    assert_eq!(
        metal.disable_uplink_offloads().join(" "),
        "-K veth0001 tso off gso off gro off"
    );
}

#[test]
fn routers_peer_over_their_link() {
    let mut a = Router::<Transit>::new(ns("transit_a", 1), 1, 64512);
    let mut b = Router::<Transit>::new(ns("transit_b", 2), 2, 64513);
    let (a_addr, b_addr) = LinkIds::new().next_interrouter_v6_link().unwrap();
    peer(&mut a, &mut b, a_addr, b_addr);
    let session = &a.bird.peers[0];
    assert_eq!((session.name.as_str(), session.remote_as), ("transit_b", 64513));
    assert_eq!(session.neighbour, Neighbour::from(IpAddr::V6(b_addr.addr)));
    assert_eq!(session.connect_delay_seconds, Some(1));
    let session = &b.bird.peers[0];
    assert_eq!((session.name.as_str(), session.remote_as), ("transit_a", 64512));
    assert_eq!(session.neighbour, Neighbour::from(a_addr.addr));
    assert_eq!(a.kind, Transit);
}

#[test]
fn forwarding_is_switched() {
    let dirs = vec!["/proc/sys/net/ipv4/conf/all".to_string()];
    let writes = |forward| {
        set_ip_forwarding(forward, &dirs)
            .into_iter()
            .map(|w| (w.path, w.value))
            .collect::<Vec<_>>()
    };
    let expected = |v: &str| {
        [
            ("/proc/sys/net/ipv4/ip_forward", v),
            ("/proc/sys/net/ipv6/conf/all/forwarding", v),
            ("/proc/sys/net/ipv4/conf/all/rp_filter", "0"),
        ]
        .iter()
        .map(|(p, v)| (p.to_string(), v.to_string()))
        .collect::<Vec<_>>()
    };
    assert_eq!(writes(true), expected("1"));
    assert_eq!(writes(false), expected("0"));
}

fn link(index: u32, attributes: Vec<LinkAttribute<u64>>) -> LinkMessage<u64> {
    LinkMessage { index, attributes }
}

#[test]
fn bridge_ports_are_found() {
    let name = |s: &str| LinkAttribute::IfName(s.to_string());
    let links = vec![
        link(1, vec![name("lo")]),
        link(2, vec![name("a"), LinkAttribute::Controller(7)]),
        link(3, vec![LinkAttribute::Controller(8), name("b")]),
        link(4, vec![LinkAttribute::Other, LinkAttribute::Controller(7), name("c"), name("d")]),
        link(5, vec![LinkAttribute::Controller(7)]),
    ];
    assert_eq!(bridge_get_ports(&links, 7), vec!["a", "c"]);
    assert!(bridge_get_ports(&links, 1).is_empty());
}

#[test]
fn link_lookups_can_fail() {
    assert_eq!(link_get_index::<u64>(&vec![]), Err(LinkError::NotFound));
    assert_eq!(link_get_index(&vec![link(3, vec![]), link(4, vec![])]), Ok(3));
    assert_eq!(link_get_stats::<u64>(&vec![]), Err(LinkError::NotFound));
    assert_eq!(
        link_get_stats(&vec![link(1, vec![LinkAttribute::Other])]),
        Err(LinkError::NoStats)
    );
    let links = vec![link(1, vec![LinkAttribute::Other, LinkAttribute::Stats(5), LinkAttribute::Stats(6)])];
    assert_eq!(link_get_stats(&links), Ok(&5));
}

#[test]
fn link_local_address_is_found() {
    let msg = |attributes| AddressMessage { attributes };
    let global = AddressAttribute::Address(IpAddr::V6(Ipv6Addr { bits: 1 }));
    let v4 = AddressAttribute::Address(IpAddr::V4(Ipv4Addr { bits: 1 }));
    let local = |h| AddressAttribute::Address(IpAddr::V6(link_local(h)));
    assert_eq!(
        link_get_link_local(&vec![
            msg(vec![v4, AddressAttribute::Other]),
            msg(vec![global, local(3), local(4)]),
            msg(vec![local(5)]),
        ]),
        Ok(link_local(3))
    );
    assert_eq!(link_get_link_local(&vec![msg(vec![global])]), Err(LinkError::NoLinkLocal));
}

#[test]
fn default_routes_go_over_the_gateway() {
    let gateway = link_local(9);
    let (src4, src6) = (Ipv4Addr { bits: 1 }, Ipv6Addr { bits: 2 });
    let v6 = DefaultRoute::V6 { gateway, output_interface: 3, pref_source: src6 };
    let v4 = DefaultRoute::V4 { via: gateway, output_interface: 3, pref_source: src4 };
    assert_eq!(route_add_default_via_v6(gateway, 3, Some(src4), Some(src6)), vec![v6, v4]);
    assert_eq!(route_add_default_via_v6(gateway, 3, Some(src4), None), vec![v4]);
    assert_eq!(route_add_default_via_v6(gateway, 3, None, None), vec![]);
}
