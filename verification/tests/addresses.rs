use erez::bpf_abi::{mapped, CFibEntry, CIpv6Addr, CNlri, NlriError};
use erez::bytes::ByteOrder;
use erez::net::{parse_net, IpAddr, IpNet, Ipv4Addr, Ipv4Net, Ipv6Addr, Ipv6Net, PrefixLenError};
use erez::wire::SizeMismatch;

fn v4(bits: u32) -> IpAddr {
    IpAddr::V4(Ipv4Addr { bits })
}

fn v6(bits: u128) -> IpAddr {
    IpAddr::V6(Ipv6Addr { bits })
}

#[test]
fn ipv4_is_stored_mapped() {
    let stored = CIpv6Addr::from(v4(0x0a29_0001));
    assert_eq!(
        stored.octets,
        [0, 0, 0, 0, 0, 0, 0, 0, 0, 0, 0xff, 0xff, 10, 41, 0, 1]
    );
    assert_eq!(IpAddr::from(stored), v4(0x0a29_0001));
    assert_eq!(mapped(v4(1)), 0xffff_0000_0001);
}

#[test]
fn ipv6_is_stored_as_it_is() {
    let bits: u128 = 0x3fff_0010_0041_0000_0000_0000_0000_0001;
    let stored = CIpv6Addr::from(v6(bits));
    assert_eq!(stored.octets, bits.to_be_bytes());
    assert_eq!(IpAddr::from(stored), v6(bits));
    assert_eq!(CIpv6Addr::unspecified().octets, [0; 16]);
}

#[test]
fn mapped_ipv6_reads_back_as_ipv4() {
    let stored = CIpv6Addr::from(v6(0xffff_0a00_0001));
    assert_eq!(IpAddr::from(stored), v4(0x0a00_0001));
}

#[test]
fn nlri_round_trip() {
    for text in ["10.41.0.0/24", "172.16.0.1/32", "0.0.0.0/0", "3fff:10:41::/64", "::/0"] {
        let net = parse_net(text).unwrap();
        let stored = CNlri::from(net);
        assert_eq!(IpNet::try_from(stored), Ok(net));
        assert_eq!(net.to_text(), text);
    }
}

#[test]
fn ipv4_prefix_lengths_are_shifted() {
    let net = parse_net("10.41.0.0/24").unwrap();
    assert_eq!(CNlri::from(net).prefix_len, 120);
    let net = parse_net("3fff:10:41::/64").unwrap();
    assert_eq!(CNlri::from(net).prefix_len, 64);
}

#[test]
fn stored_prefix_lengths_are_checked() {
    let address = CIpv6Addr::from(v4(0x0a00_0000));
    for prefix_len in [0, 95, 129, u32::MAX] {
        assert_eq!(
            IpNet::try_from(CNlri { prefix_len, address }),
            Err(NlriError::MappedPrefixLen(prefix_len))
        );
    }
    let address = CIpv6Addr::from(v6(1));
    assert_eq!(
        IpNet::try_from(CNlri { prefix_len: 129, address }),
        Err(NlriError::PrefixLen(129))
    );
    assert!(IpNet::try_from(CNlri { prefix_len: 128, address }).is_ok());
}

#[test]
fn prefix_lengths_fit_the_family() {
    let addr = Ipv4Addr { bits: 7 };
    assert_eq!(Ipv4Net::new(addr, 32), Ok(Ipv4Net { addr, prefix_len: 32 }));
    assert_eq!(Ipv4Net::new(addr, 33), Err(PrefixLenError));
    let addr = Ipv6Addr { bits: 7 };
    assert_eq!(Ipv6Net::new(addr, 128), Ok(Ipv6Net { addr, prefix_len: 128 }));
    assert_eq!(Ipv6Net::new(addr, 129), Err(PrefixLenError));
}

#[test]
fn networks_are_read_from_text() {
    assert_eq!(
        parse_net("192.168.0.2/24"),
        Some(IpNet::V4(Ipv4Net { addr: Ipv4Addr { bits: 0xc0a8_0002 }, prefix_len: 24 }))
    );
    assert_eq!(
        parse_net("fe80::/10"),
        Some(IpNet::V6(Ipv6Net {
            addr: Ipv6Addr { bits: 0xfe80_0000_0000_0000_0000_0000_0000_0000 },
            prefix_len: 10,
        }))
    );
    assert_eq!(parse_net("192.168.0.2"), None);
    assert_eq!(parse_net("192.168.0.2/33"), None);
    assert_eq!(parse_net(""), None);
}

#[test]
fn addresses_as_text() {
    assert_eq!(v4(0xc0a8_0002).to_text(), "192.168.0.2");
    assert_eq!(v4(0).to_text(), "0.0.0.0");
    assert_eq!(v6(0xfe80_0000_0000_0000_0000_0000_0000_0001).to_text(), "fe80::1");
    assert_eq!(v6(0).to_text(), "::");
}

#[test]
fn link_local_addresses() {
    let link_local = |bits: u128| Ipv6Addr { bits }.is_link_local();
    assert!(link_local(0xfe80 << 112));
    assert!(link_local(0xfebf << 112 | 1));
    assert!(!link_local(0xfec0 << 112));
    assert!(!link_local(0x3fff << 112));
}

#[test]
fn keys_as_bytes() {
    let key = CNlri::from(parse_net("10.41.0.0/24").unwrap());
    let big = key.to_bytes(ByteOrder::Big);
    let little = key.to_bytes(ByteOrder::Little);
    assert_eq!(big[..4], [0, 0, 0, 120]);
    assert_eq!(little[..4], [120, 0, 0, 0]);
    assert_eq!(big[4..], little[4..]);
    assert_eq!(big[14..], [0xff, 0xff, 10, 41, 0, 0]);
    for (bytes, order) in [(&big, ByteOrder::Big), (&little, ByteOrder::Little)] {
        let read = CNlri::from_bytes(bytes, order).unwrap();
        assert_eq!(read, key);
        assert_eq!(read.to_bytes(order), *bytes);
    }
    assert_eq!(CNlri::from_bytes(&big[1..], ByteOrder::Big), Err(SizeMismatch));
}

#[test]
fn values_as_bytes() {
    let nlri = parse_net("10.41.0.0/24").unwrap();
    let addrs = [v4(1), v6(2), v6(0), v6(0)];
    let entry = CFibEntry::new(nlri, 2, &addrs, &[6_000, 4_000, 0, 0]);
    for order in [ByteOrder::Big, ByteOrder::Little] {
        let bytes = entry.to_bytes(order);
        assert_eq!(bytes.len(), 96);
        assert_eq!(CFibEntry::from_bytes(&bytes, order), Ok(entry));
        assert!(CFibEntry::from_bytes(&bytes[..95], order).is_err());
    }
    let big = entry.to_bytes(ByteOrder::Big);
    assert_eq!(big[20..24], [0, 0, 0, 2]);
    assert_eq!(big[88..], [0x17, 0x70, 0x0f, 0xa0, 0, 0, 0, 0]);
}

#[test]
fn native_order_is_that_of_the_machine() {
    let native = ByteOrder::native();
    let expected = if 1u32.to_ne_bytes()[0] == 1 { ByteOrder::Little } else { ByteOrder::Big };
    assert_eq!(native, expected);
    assert_eq!(ByteOrder::of_one(&vec![1, 0, 0, 0]), ByteOrder::Little);
    assert_eq!(ByteOrder::of_one(&vec![0, 0, 0, 1]), ByteOrder::Big);
}
