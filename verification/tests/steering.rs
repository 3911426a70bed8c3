use erez::bgp::{Announcement, Route, Update};
use erez::bpf_abi::{CIpv6Addr, CNlri, CTcpRttEvent};
use erez::descent::{gradient, is_apportionable, quantise, Cost, Descent, Share};
use erez::fib::{FibEntry, FibError, WeightedNexthop};
use erez::net::{parse_net, IpAddr, IpNet, Ipv4Addr};
use erez::rtt_aggregation::{TcpRttAggregatorState, TcpRttSnapshot, TcpRttWindow};
use erez::steering::{balance_equally, Controller, FibAction, Rib, Steering};

fn addr(bits: u32) -> IpAddr {
    IpAddr::V4(Ipv4Addr { bits })
}

fn net(text: &str) -> IpNet {
    parse_net(text).unwrap()
}

fn route(text: &str, path_id: u32) -> Route {
    Route { path_id: Some(path_id), nlri: net(text) }
}

fn weights(action: &FibAction) -> Vec<(IpAddr, u16)> {
    match action {
        FibAction::Insert { entry, .. } => {
            entry.nexthops().iter().map(|w| (w.nexthop, w.weight)).collect()
        }
        _ => vec![],
    }
}

fn no_measurements() -> TcpRttSnapshot {
    TcpRttAggregatorState::new().snapshot(0)
}

fn measured(nlri: &str, nexthop: u32, srtt_us: u32, rtt_min: u32) -> TcpRttSnapshot {
    let mut state = TcpRttAggregatorState::new();
    let event = CTcpRttEvent {
        matched_nlri: CNlri::from(net(nlri)),
        nexthop: CIpv6Addr::from(addr(nexthop)),
        padding: 0,
        ts_ns: 0,
        srtt_us,
        rtt_min,
    };
    state.observe(0, event).unwrap();
    state.snapshot(0)
}

#[test]
fn paths_keep_their_order() {
    let mut rib = Rib::new();
    rib.insert(&route("10.0.0.0/8", 1), &addr(1));
    rib.insert(&route("10.0.0.0/8", 2), &addr(2));
    rib.insert(&route("10.0.0.0/8", 3), &addr(3));
    rib.insert(&route("10.0.0.0/8", 1), &addr(4));
    assert_eq!(rib.nexthops(&net("10.0.0.0/8")), vec![addr(2), addr(3), addr(4)]);
    assert_eq!(rib.nexthops(&net("11.0.0.0/8")), vec![]);
}

#[test]
fn routes_without_path_id_are_one_path() {
    let mut rib = Rib::new();
    let plain = Route { path_id: None, nlri: net("10.0.0.0/8") };
    rib.insert(&plain, &addr(1));
    rib.insert(&route("10.0.0.0/8", 0), &addr(2));
    rib.insert(&plain, &addr(3));
    assert_eq!(rib.nexthops(&plain.nlri), vec![addr(2), addr(3)]);
    rib.remove(&plain);
    assert_eq!(rib.nexthops(&plain.nlri), vec![addr(2)]);
}

#[test]
fn removal_undoes_insertion() {
    let mut rib = Rib::new();
    rib.insert(&route("10.0.0.0/8", 1), &addr(1));
    rib.insert(&route("10.0.0.0/8", 2), &addr(2));
    rib.remove(&route("10.0.0.0/8", 2));
    rib.remove(&route("10.0.0.0/8", 2));
    assert_eq!(rib.nexthops(&net("10.0.0.0/8")), vec![addr(1)]);
    rib.remove(&route("11.0.0.0/8", 1));
    assert_eq!(rib.nlris(), vec![net("10.0.0.0/8")]);
    rib.remove(&route("10.0.0.0/8", 1));
    assert!(rib.nlris().is_empty());
}

#[test]
fn prefixes_are_listed_once() {
    let mut rib = Rib::new();
    for (text, path) in [("10.0.0.0/8", 1), ("11.0.0.0/8", 1), ("10.0.0.0/8", 2)] {
        rib.insert(&route(text, path), &addr(path));
    }
    let mut nlris: Vec<String> = rib.nlris().iter().map(|n| n.to_text()).collect();
    nlris.sort();
    assert_eq!(nlris, vec!["10.0.0.0/8", "11.0.0.0/8"]);
}

#[test]
fn traffic_is_shared_equally() {
    let shares = |n: u32| {
        let nexthops: Vec<IpAddr> = (1..=n).map(addr).collect();
        match balance_equally(&nexthops) {
            Ok(Some(entry)) => entry.nexthops().iter().map(|w| w.weight).collect(),
            _ => vec![],
        }
    };
    assert_eq!(shares(0), Vec::<u16>::new());
    assert_eq!(shares(1), vec![10_000]);
    assert_eq!(shares(2), vec![5_000, 5_000]);
    assert_eq!(shares(3), vec![3_334, 3_333, 3_333]);
    assert_eq!(shares(4), vec![2_500; 4]);
    assert_eq!(shares(7), vec![2_500; 4]);
}

#[test]
fn remainder_goes_to_the_first() {
    let entry = balance_equally(&vec![addr(9), addr(5), addr(1)]).unwrap().unwrap();
    let got: Vec<(IpAddr, u16)> = entry.nexthops().iter().map(|w| (w.nexthop, w.weight)).collect();
    assert_eq!(got, vec![(addr(1), 3_333), (addr(5), 3_333), (addr(9), 3_334)]);
}

#[test]
fn updates_change_the_forwarding_table() {
    let mut controller = Controller::new();
    let update = Update {
        announcements: vec![
            Announcement {
                routes: vec![route("10.0.0.0/8", 1), route("11.0.0.0/8", 1)],
                nexthop: addr(1),
            },
            Announcement { routes: vec![route("10.0.0.0/8", 2)], nexthop: addr(2) },
        ],
        withdrawals: vec![route("11.0.0.0/8", 1), route("12.0.0.0/8", 1)],
    };
    let actions = controller.on_update(&update);
    assert_eq!(actions.len(), 5);
    assert_eq!(weights(&actions[0]), vec![(addr(1), 10_000)]);
    assert_eq!(weights(&actions[1]), vec![(addr(1), 10_000)]);
    assert_eq!(weights(&actions[2]), vec![(addr(1), 5_000), (addr(2), 5_000)]);
    assert!(matches!(actions[3], FibAction::Delete { nlri } if nlri == net("11.0.0.0/8")));
    assert!(matches!(actions[4], FibAction::Delete { nlri } if nlri == net("12.0.0.0/8")));
    assert_eq!(controller.rib.nlris(), vec![net("10.0.0.0/8")]);
    assert_eq!(weights(&controller.update_fib(net("10.0.0.0/8"))), weights(&actions[2]));
}

#[test]
fn cost_is_latency_and_congestion() {
    let window = |avg_srtt_us, min_rtt_min| TcpRttWindow {
        samples: 1,
        avg_srtt_us,
        max_srtt_us: 0,
        min_rtt_min,
    };
    assert_eq!(gradient(&window(100, 30)), Cost { latency: 100, congestion: 70 });
    assert_eq!(gradient(&window(30, 100)), Cost { latency: 30, congestion: 0 });
}

#[test]
fn descent_starts_anew_with_other_nexthops() {
    let mut descent = Descent::new();
    let nlri = net("10.0.0.0/8");
    let nexthops = vec![addr(1), addr(2)];
    let plan = descent.step(nlri, &nexthops, &no_measurements()).unwrap();
    assert!(plan.weights.is_none());
    assert_eq!(plan.distinct, nexthops);
    assert_eq!(plan.costs, vec![(addr(1), None), (addr(2), None)]);

    let stored = vec![(addr(1), 7), (addr(2), 8)];
    descent.store(nlri, &stored);
    let plan = descent.step(nlri, &nexthops, &measured("10.0.0.0/8", 2, 100, 30)).unwrap();
    assert_eq!(plan.weights, Some(stored));
    assert_eq!(
        plan.costs,
        vec![(addr(1), None), (addr(2), Some(Cost { latency: 100, congestion: 70 }))]
    );

    let others = vec![addr(1), addr(3)];
    assert!(descent.step(nlri, &others, &no_measurements()).unwrap().weights.is_none());
    let fewer = vec![addr(1)];
    assert!(descent.step(nlri, &fewer, &no_measurements()).unwrap().weights.is_none());
}

#[test]
fn descent_forgets_prefixes_without_nexthops() {
    let mut descent = Descent::new();
    let nlri = net("10.0.0.0/8");
    descent.store(nlri, &vec![(addr(1), 7)]);
    assert!(descent.step(nlri, &vec![], &no_measurements()).is_none());
    assert!(descent.weights.entries.is_empty());
}

#[test]
fn repeated_nexthops_are_weighed_once() {
    let mut descent = Descent::new();
    let nexthops = vec![addr(1), addr(2), addr(1)];
    let plan = descent.step(net("10.0.0.0/8"), &nexthops, &no_measurements()).unwrap();
    assert_eq!(plan.distinct, vec![addr(1), addr(2)]);
    assert_eq!(plan.costs.len(), 3);
}

fn share(nexthop: u32, floor: u16, remainder: f64) -> Share {
    Share { nexthop: addr(nexthop), floor, remainder: remainder.to_bits() }
}

#[test]
fn largest_remainders_get_the_rest() {
    let shares = vec![share(1, 3_333, 0.2), share(2, 3_333, 0.7), share(3, 3_332, 0.5)];
    assert!(is_apportionable(&shares));
    let got: Vec<(IpAddr, u16)> =
        quantise(&shares).iter().map(|w| (w.nexthop, w.weight)).collect();
    assert_eq!(got, vec![(addr(2), 3_334), (addr(3), 3_333), (addr(1), 3_333)]);
}

#[test]
fn equal_remainders_keep_their_order() {
    let shares = vec![share(3, 4_999, 0.5), share(1, 5_000, 0.5)];
    let got = quantise(&shares);
    assert_eq!(
        got,
        vec![
            WeightedNexthop { nexthop: addr(3), weight: 5_000 },
            WeightedNexthop { nexthop: addr(1), weight: 5_000 },
        ]
    );
}

#[test]
fn remainders_are_ordered_as_numbers() {
    let mut numbers = [0.5, -0.25, 0.0, -0.0, -0.5, 0.25, f64::NAN, f64::INFINITY];
    let shares: Vec<Share> = numbers
        .iter()
        .enumerate()
        .map(|(i, n)| share(i as u32, if i == 0 { 10_000 } else { 0 }, *n))
        .collect();
    let order: Vec<u64> = quantise(&shares)
        .iter()
        .map(|w| shares.iter().find(|s| s.nexthop == w.nexthop).unwrap().remainder)
        .collect();
    numbers.sort_by(|a, b| b.total_cmp(a));
    let expected: Vec<u64> = numbers.iter().map(|n| n.to_bits()).collect();
    assert_eq!(order, expected);
}

#[test]
fn shares_that_leave_too_much_are_told() {
    assert!(!is_apportionable(&vec![share(1, 4_999, 0.0), share(2, 4_998, 0.0)]));
    assert!(!is_apportionable(&vec![share(1, 10_001, 0.0)]));
    assert!(!is_apportionable(&vec![]));
    assert!(is_apportionable(&vec![share(1, 9_999, 0.9)]));
}

#[test]
fn steering_follows_the_descent() {
    let mut controller = Controller::new();
    let nlri = net("10.0.0.0/8");
    assert!(matches!(
        controller.steer_fib(nlri, &no_measurements()),
        Steering::Act(FibAction::Delete { .. })
    ));
    for path in 1..=6 {
        controller.rib.insert(&route("10.0.0.0/8", path), &addr(path));
    }
    match controller.steer_fib(nlri, &no_measurements()) {
        Steering::Weigh(plan) => {
            assert_eq!(plan.distinct, vec![addr(1), addr(2), addr(3), addr(4)]);
            assert!(plan.weights.is_none());
        }
        Steering::Act(_) => panic!("there are nexthops"),
    }
    let stored: Vec<(IpAddr, u64)> = (1..=4).map(|i| (addr(i), u64::from(i))).collect();
    let shares: Vec<Share> = (1..=4).map(|i| share(i, 2_499, f64::from(i) / 10.0)).collect();
    let action = controller.steered(nlri, &stored, &shares);
    assert_eq!(weights(&action), (1..=4).map(|i| (addr(i), 2_500)).collect::<Vec<_>>());
    match controller.steer_fib(nlri, &no_measurements()) {
        Steering::Weigh(plan) => assert_eq!(plan.weights, Some(stored)),
        Steering::Act(_) => panic!("there are nexthops"),
    }
}

#[test]
fn unusable_weights_are_rejected() {
    let mut controller = Controller::new();
    let nlri = net("10.0.0.0/8");
    let shares = vec![share(1, 10_000, 0.0), share(2, 0, 0.0)];
    let action = controller.steered(nlri, &vec![], &shares);
    assert!(matches!(action, FibAction::Rejected { error: FibError::ZeroWeight, .. }));
}

#[test]
fn shares_above_one_percent_make_an_entry() {
    let shares: Vec<Share> = [(1, 100, 0.25), (2, 4_949, 0.5), (3, 4_950, 0.25)]
        .iter()
        .map(|&(bits, floor, rest)| Share {
            nexthop: addr(bits),
            floor,
            remainder: f64::to_bits(rest),
        })
        .collect();
    assert!(is_apportionable(&shares));
    let weighted = quantise(&shares);
    assert!(weighted.iter().all(|w| w.weight >= 100));
    let entry = FibEntry::new(weighted).unwrap();
    let got: Vec<_> = entry.nexthops().iter().map(|w| (w.nexthop, w.weight)).collect();
    assert_eq!(got, vec![(addr(1), 100), (addr(2), 4_950), (addr(3), 4_950)]);
}
