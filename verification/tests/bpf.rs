use erez::bpf::{
    decap_metric_families, detach, encap_metric_families, encode_counter_family, is_not_attached,
    print_callback, DetachError, LogLevel, MetricsMap, MetricsSet, PrintLevel, TC_HANDLE,
    TC_PRIORITY,
};
use erez::bpf_abi::CEbpfMetrics;
use erez::bytes::ByteOrder;
use erez::wire::SizeMismatch;

fn cpu(order: ByteOrder, f: fn(u64) -> u64) -> Vec<u8> {
    (0..34u64)
        .flat_map(|i| match order {
            ByteOrder::Big => f(i).to_be_bytes(),
            ByteOrder::Little => f(i).to_le_bytes(),
        })
        .collect()
}

#[test]
fn counters_add_up_over_cpus() {
    for order in [ByteOrder::Big, ByteOrder::Little] {
        let map = MetricsMap { set: MetricsSet::Encap, order };
        let values = vec![cpu(order, |i| i), cpu(order, |i| 100 * i), cpu(order, |_| 1)];
        assert!(map.fits(&values));
        let total = map.read(&values).unwrap();
        let expected: Vec<u64> = (0..34).map(|i| 101 * i + 1).collect();
        assert_eq!(total.as_counter_slice(), expected);
        assert_eq!(total.encap_fib_hits_total, 101 * 17 + 1);
    }
}

#[test]
fn counters_of_no_cpu_are_zero() {
    let map = MetricsMap { set: MetricsSet::Decap, order: ByteOrder::Big };
    assert_eq!(map.read(&vec![]).unwrap(), CEbpfMetrics::default());
}

#[test]
fn counters_of_another_size_are_refused() {
    let order = ByteOrder::Big;
    let map = MetricsMap { set: MetricsSet::Decap, order };
    let values = vec![cpu(order, |i| i), vec![0; 271]];
    assert!(map.fits(&values));
    assert_eq!(map.read(&values), Err(SizeMismatch));
}

#[test]
fn counters_that_overflow_are_told() {
    let order = ByteOrder::Little;
    let map = MetricsMap { set: MetricsSet::Decap, order };
    let most = cpu(order, |_| u64::MAX);
    assert!(map.fits(&vec![most.clone()]));
    assert!(!map.fits(&vec![most.clone(), cpu(order, |i| i / 33)]));
    assert!(map.fits(&vec![most.clone(), vec![], most]));
}

#[test]
fn counters_are_added_one_by_one() {
    let mut a = CEbpfMetrics { encap_fib_hits_total: 3, ..CEbpfMetrics::default() };
    let b = CEbpfMetrics {
        encap_fib_hits_total: 4,
        sockops_rtt_skipped_total_unsupported_family: 5,
        ..CEbpfMetrics::default()
    };
    a.add_assign(b);
    assert_eq!(a.encap_fib_hits_total, 7);
    assert_eq!(a.sockops_rtt_skipped_total_unsupported_family, 5);
    assert_eq!(a.as_counter_slice().iter().sum::<u64>(), 12);
}

#[test]
fn every_counter_is_reported_once() {
    let decap: Vec<usize> = decap_metric_families()
        .iter()
        .flat_map(|f| f.series.iter().map(|s| s.index))
        .collect();
    let encap: Vec<usize> = encap_metric_families()
        .iter()
        .flat_map(|f| f.series.iter().map(|s| s.index))
        .collect();
    assert_eq!(decap, (0..12).collect::<Vec<_>>());
    assert_eq!(encap, (12..34).collect::<Vec<_>>());
}

#[test]
fn families_show_the_fields_they_are_named_after() {
    let metrics = CEbpfMetrics {
        decap_errors_total_same_ifindex: 11,
        encap_sticky_nexthop_total_miss: 22,
        ..CEbpfMetrics::default()
    };
    let decap = MetricsMap { set: MetricsSet::Decap, order: ByteOrder::Big }.families();
    let errors = decap.iter().find(|f| f.name == "erez_decap_errors").unwrap();
    assert_eq!(errors.help, "Total number of errors encountered by erez_decap");
    assert_eq!(errors.series[4].labels, vec![("reason", "same-ifindex")]);
    assert_eq!(encode_counter_family(&metrics, errors), vec![0, 0, 0, 0, 11]);

    let encap = MetricsMap { set: MetricsSet::Encap, order: ByteOrder::Big }.families();
    let sticky = encap.iter().find(|f| f.name == "erez_encap_sticky_nexthop").unwrap();
    assert_eq!(sticky.series[1].labels, vec![("result", "miss")]);
    assert_eq!(encode_counter_family(&metrics, sticky), vec![0, 22, 0]);
    assert!(encap.iter().all(|f| f.name != "erez_decap_errors"));
    assert!(decap[0].series[0].labels.is_empty());
}

#[test]
fn nothing_to_detach_is_no_failure() {
    for ret in [-22, -2, 22, 2] {
        assert!(is_not_attached(ret));
        assert_eq!(detach(ret, ret), Ok(()));
    }
    for ret in [0, -1, 1, -17, i32::MIN, i32::MAX] {
        assert!(!is_not_attached(ret));
    }
    assert_eq!(detach(0, 0), Ok(()));
}

#[test]
fn tc_failure_is_told_first() {
    assert_eq!(detach(-1, -17), Err(DetachError::Tc(-1)));
    assert_eq!(detach(0, -17), Err(DetachError::Xdp(-17)));
    assert_eq!(detach(-2, -17), Err(DetachError::Xdp(-17)));
    assert_eq!(detach(-1, 0), Err(DetachError::Tc(-1)));
}

#[test]
fn libbpf_messages_are_logged() {
    let line = print_callback(PrintLevel::Warn, "  libbpf: oops\n");
    assert_eq!((line.level, line.message.as_str()), (LogLevel::Warn, "libbpf: oops"));
    assert_eq!(print_callback(PrintLevel::Info, "x").level, LogLevel::Info);
    assert_eq!(print_callback(PrintLevel::Debug, "x").level, LogLevel::Trace);
}

#[test]
fn libbpf_noise_is_logged_at_debug_level() {
    let noise = "libbpf: Kernel error message: Parent Qdisc doesn't exists\n";
    let line = print_callback(PrintLevel::Warn, noise);
    assert_eq!(line.level, LogLevel::Debug);
    assert_eq!(line.message, noise.trim());
}

#[test]
fn tc_programs_have_their_place() {
    assert_eq!((TC_HANDLE, TC_PRIORITY), (1, 1));
}
