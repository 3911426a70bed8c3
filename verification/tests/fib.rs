use erez::bpf_abi::NlriError;
use erez::bytes::ByteOrder;
use erez::fib::{
    weight_gauge_help, weight_gauge_name, Fib, FibEntry, FibError, FibItem, FibKeyError,
    FibWarning, Lookup, WeightedNexthop,
};
use erez::net::{parse_net, IpAddr, Ipv4Addr, Ipv6Addr};
use erez::wire::SizeMismatch;

fn nexthop(bits: u32, weight: u16) -> WeightedNexthop {
    WeightedNexthop { nexthop: IpAddr::V4(Ipv4Addr { bits }), weight }
}

#[test]
fn entry_needs_a_nexthop() {
    assert_eq!(FibEntry::new(vec![]).unwrap_err(), FibError::NoNexthop);
}

#[test]
fn entry_takes_four_nexthops() {
    let four: Vec<_> = (0..4).map(|i| nexthop(i, 2_500)).collect();
    assert!(FibEntry::new(four).is_ok());
    let five: Vec<_> = (0..5).map(|i| nexthop(i, 2_000)).collect();
    assert_eq!(FibEntry::new(five).unwrap_err(), FibError::TooManyNexthops);
}

#[test]
fn weights_must_add_up() {
    let err = FibEntry::new(vec![nexthop(1, 5_000), nexthop(2, 4_999)]).unwrap_err();
    assert_eq!(err, FibError::WeightSum);
    let err = FibEntry::new(vec![nexthop(1, 5_000), nexthop(2, 5_001)]).unwrap_err();
    assert_eq!(err, FibError::WeightSum);
    let err = FibEntry::new(vec![nexthop(1, u16::MAX); 4]).unwrap_err();
    assert_eq!(err, FibError::WeightSum);
}

#[test]
fn weights_must_not_be_zero() {
    let err = FibEntry::new(vec![nexthop(1, 10_000), nexthop(2, 0)]).unwrap_err();
    assert_eq!(err, FibError::ZeroWeight);
}

#[test]
fn nexthops_come_out_in_order() {
    let v6 = WeightedNexthop { nexthop: IpAddr::V6(Ipv6Addr { bits: 1 }), weight: 1_000 };
    let entry = FibEntry::new(vec![nexthop(9, 3_000), nexthop(2, 6_000), v6]).unwrap();
    assert_eq!(entry.nexthops(), vec![v6, nexthop(2, 6_000), nexthop(9, 3_000)]);
}

#[test]
fn order_of_nexthops_does_not_matter() {
    let a = FibEntry::new(vec![nexthop(9, 3_000), nexthop(2, 7_000)]).unwrap();
    let b = FibEntry::new(vec![nexthop(2, 7_000), nexthop(9, 3_000)]).unwrap();
    assert_eq!(a, b);
    assert_eq!(a.clone(), a);
}

#[test]
fn same_nexthops_keep_their_order() {
    let entry = FibEntry::new(vec![nexthop(5, 4_000), nexthop(1, 3_000), nexthop(5, 3_000)]).unwrap();
    assert_eq!(
        entry.nexthops(),
        vec![nexthop(1, 3_000), nexthop(5, 4_000), nexthop(5, 3_000)]
    );
}

#[test]
fn table_reads_back_what_was_written() {
    for order in [ByteOrder::Little, ByteOrder::Big] {
        let fib = Fib { order };
        for text in ["10.41.0.0/24", "3fff:10:41::/64"] {
            let nlri = parse_net(text).unwrap();
            let entry = FibEntry::new(vec![nexthop(0x0a00_0002, 7_000), nexthop(0x0a00_0001, 3_000)]).unwrap();
            let write = fib.insert(nlri, &entry);
            assert_eq!(fib.delete(nlri), write.key);
            assert_eq!(fib.read_key(&write.key), Ok(nlri));
            let samples = fib.read_value(nlri, &write.value).unwrap();
            let rows: Vec<_> = samples
                .iter()
                .map(|s| (s.nlri.as_str(), s.nexthop.as_str(), s.value))
                .collect();
            assert_eq!(rows, vec![(text, "10.0.0.1", 3_000), (text, "10.0.0.2", 7_000)]);
        }
    }
}

#[test]
fn table_entries_of_other_sizes_are_refused() {
    let fib = Fib { order: ByteOrder::Big };
    let nlri = parse_net("10.41.0.0/24").unwrap();
    assert_eq!(fib.read_key(&[0; 19]), Err(FibKeyError::Size(SizeMismatch)));
    assert_eq!(fib.read_value(nlri, &[0; 97]).unwrap_err(), SizeMismatch);
    let mut key = fib.delete(nlri);
    key[3] = 200;
    assert!(matches!(fib.read_key(&key), Err(FibKeyError::Nlri(_))));
}

#[test]
fn no_more_nexthops_are_read_than_there_are_slots() {
    let fib = Fib { order: ByteOrder::Big };
    let nlri = parse_net("10.41.0.0/24").unwrap();
    let mut value = vec![0; 96];
    value[20..24].copy_from_slice(&[0, 0, 0, 200]);
    assert_eq!(fib.read_value(nlri, &value).unwrap().len(), 4);
    value[23] = 0;
    assert_eq!(fib.read_value(nlri, &value).unwrap().len(), 0);
}

#[test]
fn whole_table_is_reported() {
    let fib = Fib { order: ByteOrder::Little };
    let a = parse_net("10.41.0.0/24").unwrap();
    let b = parse_net("3fff:10:41::/64").unwrap();
    let entry = FibEntry::new(vec![nexthop(2, 4_000), nexthop(1, 6_000)]).unwrap();
    let single = FibEntry::new(vec![nexthop(3, 10_000)]).unwrap();
    let first = fib.insert(a, &entry);
    let second = fib.insert(b, &single);
    let mut bad_key = first.key.clone();
    bad_key[0] = 200;
    let items = vec![
        FibItem { key: first.key.clone(), lookup: Lookup::Found(first.value) },
        FibItem { key: vec![0; 19], lookup: Lookup::Found(second.value.clone()) },
        FibItem { key: bad_key, lookup: Lookup::Missing },
        FibItem { key: first.key.clone(), lookup: Lookup::Missing },
        FibItem { key: first.key.clone(), lookup: Lookup::Failed("gone".to_string()) },
        FibItem { key: first.key, lookup: Lookup::Found(vec![0; 95]) },
        FibItem { key: second.key, lookup: Lookup::Found(second.value) },
    ];
    let report = fib.encode(&items);
    let rows: Vec<_> = report
        .samples
        .iter()
        .map(|s| (s.nlri.as_str(), s.nexthop.as_str(), s.value))
        .collect();
    assert_eq!(
        rows,
        vec![
            ("10.41.0.0/24", "0.0.0.1", 6_000),
            ("10.41.0.0/24", "0.0.0.2", 4_000),
            ("3fff:10:41::/64", "0.0.0.3", 10_000),
        ]
    );
    assert_eq!(report.warnings.len(), 4);
    assert!(matches!(report.warnings[0], FibWarning::Key(FibKeyError::Size(_))));
    assert!(matches!(report.warnings[1], FibWarning::Key(FibKeyError::Nlri(_))));
    assert!(matches!(&report.warnings[2], FibWarning::Lookup(e) if e == "gone"));
    assert!(matches!(report.warnings[3], FibWarning::Value(_)));
}

#[test]
fn weights_are_reported_by_name() {
    assert_eq!(weight_gauge_name(), "erez_steering_nexthop_weight");
    assert_eq!(
        weight_gauge_help(),
        "Current weight assigned to each nexthop in the steering FIB"
    );
}

#[test]
fn fib_errors_have_texts() {
    assert_eq!(FibError::NoNexthop.to_text(), "fib entry requires at least one nexthop");
    assert_eq!(FibError::TooManyNexthops.to_text(), "fib entry has too many nexthops");
    assert_eq!(FibError::WeightSum.to_text(), "fib entry weights must sum to 10000");
    assert_eq!(
        FibError::ZeroWeight.to_text(),
        "fib entry active nexthops must have non-zero weight"
    );
    assert_eq!(
        NlriError::MappedPrefixLen(95).to_text(),
        "ipv4-mapped nlri has invalid prefix length 95"
    );
    assert_eq!(NlriError::PrefixLen(129).to_text(), "ipv6 nlri has invalid prefix length 129");
}
