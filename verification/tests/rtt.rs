use erez::bpf_abi::{CIpv6Addr, CNlri, CTcpRttEvent, NlriError};
use erez::bytes::ByteOrder;
use erez::net::{parse_net, IpAddr, IpNet, Ipv4Addr};
use erez::rtt_aggregation::{
    monotonic_now_ns, time_of_reading, ClockError, ObserveError, RttGauge, TcpRttAggregator,
    TcpRttAggregatorState, TcpRttSample, TcpRttWindow, AGGREGATION_WINDOW_NS,
};
use erez::wire::SizeMismatch;

fn addr(bits: u32) -> IpAddr {
    IpAddr::V4(Ipv4Addr { bits })
}

fn event(nlri: &str, nexthop: u32, ts_ns: u64, srtt_us: u32, rtt_min: u32) -> CTcpRttEvent {
    CTcpRttEvent {
        matched_nlri: CNlri::from(parse_net(nlri).unwrap()),
        nexthop: CIpv6Addr::from(addr(nexthop)),
        padding: 0,
        ts_ns,
        srtt_us,
        rtt_min,
    }
}

fn window(state: &mut TcpRttAggregatorState, now: u64, nlri: &str, nexthop: u32) -> Option<TcpRttWindow> {
    let snapshot = state.snapshot(now);
    let nlri: IpNet = parse_net(nlri).unwrap();
    snapshot.windows.get(&nlri)?.get(&addr(nexthop)).copied()
}

#[test]
fn window_summarises_samples() {
    let sample = |srtt_us, rtt_min| TcpRttSample { ts_ns: 0, srtt_us, rtt_min };
    let window = TcpRttWindow::from_samples(&vec![sample(100, 90), sample(201, 40), sample(200, 60)]);
    assert_eq!(
        window,
        TcpRttWindow { samples: 3, avg_srtt_us: 167, max_srtt_us: 201, min_rtt_min: 40 }
    );
    let most = TcpRttWindow::from_samples(&vec![sample(u32::MAX, 5); 3]);
    assert_eq!(most.avg_srtt_us, u64::from(u32::MAX));
}

#[test]
fn window_of_no_samples_is_zero() {
    let window = TcpRttWindow::from_samples(&vec![]);
    assert_eq!(
        window,
        TcpRttWindow { samples: 0, avg_srtt_us: 0, max_srtt_us: 0, min_rtt_min: 0 }
    );
}

#[test]
fn samples_are_kept_by_prefix_and_nexthop() {
    let mut state = TcpRttAggregatorState::new();
    state.observe(10, event("10.41.0.0/24", 1, 5, 100, 50)).unwrap();
    state.observe(10, event("10.41.0.0/24", 1, 6, 300, 60)).unwrap();
    state.observe(10, event("10.41.0.0/24", 2, 6, 40, 30)).unwrap();
    state.observe(10, event("3fff:10:41::/64", 1, 6, 7, 8)).unwrap();
    assert_eq!(
        window(&mut state, 10, "10.41.0.0/24", 1).unwrap(),
        TcpRttWindow { samples: 2, avg_srtt_us: 200, max_srtt_us: 300, min_rtt_min: 50 }
    );
    assert_eq!(window(&mut state, 10, "10.41.0.0/24", 2).unwrap().avg_srtt_us, 40);
    assert_eq!(window(&mut state, 10, "3fff:10:41::/64", 1).unwrap().avg_srtt_us, 7);
    assert!(window(&mut state, 10, "3fff:10:41::/64", 2).is_none());
}

#[test]
fn samples_leave_the_window() {
    let mut state = TcpRttAggregatorState::new();
    state.observe(0, event("10.41.0.0/24", 1, 0, 100, 50)).unwrap();
    state.observe(1, event("10.41.0.0/24", 1, 1, 300, 60)).unwrap();
    let at_edge = window(&mut state, AGGREGATION_WINDOW_NS, "10.41.0.0/24", 1).unwrap();
    assert_eq!(at_edge.samples, 2);
    let later = window(&mut state, AGGREGATION_WINDOW_NS + 1, "10.41.0.0/24", 1).unwrap();
    assert_eq!((later.samples, later.avg_srtt_us), (1, 300));
    let gone = state.snapshot(AGGREGATION_WINDOW_NS + 2);
    assert!(gone.windows.entries.is_empty());
    assert!(state.samples.entries.is_empty());
}

#[test]
fn pruning_often_or_late_is_the_same() {
    let fill = || {
        let mut state = TcpRttAggregatorState::new();
        for i in 0..10 {
            state.observe(i, event("10.41.0.0/24", 1, i, 100 + i as u32, 50)).unwrap();
        }
        state
    };
    let (mut often, mut late) = (fill(), fill());
    for now in 0..=5 {
        often.prune(AGGREGATION_WINDOW_NS + now);
    }
    late.prune(AGGREGATION_WINDOW_NS + 5);
    assert_eq!(
        window(&mut often, AGGREGATION_WINDOW_NS + 5, "10.41.0.0/24", 1),
        window(&mut late, AGGREGATION_WINDOW_NS + 5, "10.41.0.0/24", 1)
    );
}

#[test]
fn old_events_are_ignored() {
    let mut state = TcpRttAggregatorState::new();
    let now = AGGREGATION_WINDOW_NS + 11;
    assert_eq!(state.observe(now, event("10.41.0.0/24", 1, 10, 100, 50)), Ok(()));
    assert!(state.samples.entries.is_empty());
    assert_eq!(state.observe(now, event("10.41.0.0/24", 1, 11, 100, 50)), Ok(()));
    assert_eq!(state.samples.entries.len(), 1);
    // An event from the future is as good as one of now.
    assert_eq!(state.observe(0, event("10.41.0.0/24", 1, u64::MAX, 1, 1)), Ok(()));
    assert_eq!(state.samples.entries[0].1.entries[0].1.len(), 2);
}

#[test]
fn events_of_no_network_are_refused() {
    let mut state = TcpRttAggregatorState::new();
    state.observe(0, event("10.41.0.0/24", 1, 0, 100, 50)).unwrap();
    let mut bad = event("10.41.0.0/24", 1, AGGREGATION_WINDOW_NS + 1, 100, 50);
    bad.matched_nlri.prefix_len = 3;
    assert_eq!(
        state.observe(AGGREGATION_WINDOW_NS + 1, bad),
        Err(NlriError::MappedPrefixLen(3))
    );
    // What had left the window is gone all the same.
    assert!(state.samples.entries.is_empty());
}

#[test]
fn gauges_show_the_windows() {
    let mut state = TcpRttAggregatorState::new();
    state.observe(10, event("10.41.0.0/24", 0x0a00_0001, 5, 100, 50)).unwrap();
    state.observe(10, event("10.41.0.0/24", 0x0a00_0001, 6, 301, 60)).unwrap();
    let snapshot = state.snapshot(10);
    let values: Vec<u64> = RttGauge::all()
        .iter()
        .map(|gauge| {
            let samples = snapshot.get_samples(*gauge);
            assert_eq!(samples.len(), 1);
            assert_eq!(samples[0].nlri, "10.41.0.0/24");
            assert_eq!(samples[0].nexthop, "10.0.0.1");
            samples[0].value
        })
        .collect();
    assert_eq!(values, vec![2, 200, 301, 50]);
    let names: Vec<&str> = RttGauge::all().iter().map(|g| g.name()).collect();
    assert_eq!(
        names,
        vec![
            "erez_tcp_rtt_window_samples",
            "erez_tcp_rtt_window_srtt_us_avg",
            "erez_tcp_rtt_window_srtt_us_max",
            "erez_tcp_rtt_window_rtt_min_us_min",
        ]
    );
    assert_eq!(
        RttGauge::SrttAvg.help(),
        "Average smoothed TCP RTT in the current aggregation window"
    );
}

#[test]
fn gauges_cover_every_pair_once() {
    let mut state = TcpRttAggregatorState::new();
    for nlri in ["10.41.0.0/24", "10.42.0.0/24"] {
        for nexthop in 1..4 {
            state.observe(10, event(nlri, nexthop, 5, nexthop, 50)).unwrap();
        }
    }
    let samples = state.snapshot(10).get_samples(RttGauge::SrttMax);
    let mut pairs: Vec<_> = samples.iter().map(|s| (s.nlri.clone(), s.nexthop.clone())).collect();
    pairs.sort();
    pairs.dedup();
    assert_eq!(pairs.len(), 6);
    assert_eq!(samples.iter().map(|s| s.value).sum::<u64>(), 12);
}

#[test]
fn events_are_read_from_bytes() {
    for order in [ByteOrder::Big, ByteOrder::Little] {
        let word = |v: u64, width: usize| match order {
            ByteOrder::Big => v.to_be_bytes()[8 - width..].to_vec(),
            ByteOrder::Little => v.to_le_bytes()[..width].to_vec(),
        };
        let expected = event("10.41.0.0/24", 7, 0x0102_0304_0506, 8, 9);
        let mut bytes = expected.matched_nlri.to_bytes(order);
        bytes.extend(expected.nexthop.octets);
        bytes.extend(word(0, 4));
        bytes.extend(word(expected.ts_ns, 8));
        bytes.extend(word(8, 4));
        bytes.extend(word(9, 4));
        assert_eq!(CTcpRttEvent::from_bytes(&bytes, order), Ok(expected));
        assert_eq!(CTcpRttEvent::from_bytes(&bytes[1..], order), Err(SizeMismatch));
    }
}

#[test]
fn clock_readings_are_checked() {
    assert_eq!(time_of_reading(Some(5)), Ok(5));
    assert_eq!(time_of_reading(Some(-1)), Err(ClockError::Negative));
    assert_eq!(time_of_reading(None), Err(ClockError::Unreadable));
}

#[test]
fn clock_goes_on() {
    let first = monotonic_now_ns().unwrap();
    let second = monotonic_now_ns().unwrap();
    assert!(0 < first && first <= second);
}

#[test]
fn aggregator_works_in_its_own_time() {
    let mut aggregator = TcpRttAggregator::new();
    let now = monotonic_now_ns().unwrap();
    aggregator.observe(event("10.41.0.0/24", 1, now, 100, 50)).unwrap();
    let snapshot = aggregator.snapshot().unwrap();
    assert_eq!(snapshot.windows.entries.len(), 1);
    let mut bad = event("10.41.0.0/24", 1, now, 100, 50);
    bad.matched_nlri.prefix_len = 129;
    assert_eq!(
        aggregator.observe(bad),
        Err(ObserveError::Nlri(NlriError::MappedPrefixLen(129)))
    );
}

#[test]
fn snapshot_follows_the_clock() {
    let mut aggregator = TcpRttAggregator::new();
    aggregator.state.observe(1_000, event("10.41.0.0/24", 1, 1_000, 100, 50)).unwrap();
    for error in [ClockError::Unreadable, ClockError::Negative] {
        assert_eq!(aggregator.snapshot_at(Err(error)).unwrap_err(), error);
        assert_eq!(aggregator.state.samples.entries.len(), 1);
    }
    let last = 1_000 + AGGREGATION_WINDOW_NS;
    assert_eq!(aggregator.snapshot_at(Ok(last)).unwrap().windows.entries.len(), 1);
    assert_eq!(aggregator.snapshot_at(Ok(last + 1)).unwrap().windows.entries.len(), 0);
    assert_eq!(aggregator.state.samples.entries.len(), 0);
}

#[test]
fn observation_follows_the_clock() {
    let mut aggregator = TcpRttAggregator::new();
    let sample = event("10.41.0.0/24", 1, 1_000, 100, 50);
    for error in [ClockError::Unreadable, ClockError::Negative] {
        assert_eq!(aggregator.observe_at(Err(error), sample), Err(ObserveError::Clock(error)));
        assert_eq!(aggregator.state.samples.entries.len(), 0);
    }
    let late = 1_001 + AGGREGATION_WINDOW_NS;
    assert_eq!(aggregator.observe_at(Ok(late), sample), Ok(()));
    assert_eq!(aggregator.state.samples.entries.len(), 0);
    assert_eq!(aggregator.observe_at(Ok(late - 1), sample), Ok(()));
    assert_eq!(aggregator.state.samples.entries.len(), 1);
    let mut bad = sample;
    bad.matched_nlri.prefix_len = 95;
    assert_eq!(
        aggregator.observe_at(Ok(1_000), bad),
        Err(ObserveError::Nlri(NlriError::MappedPrefixLen(95)))
    );
}
