//! The layout of the values that the daemon shares with its eBPF programs.

use vstd::prelude::*;

use crate::bytes::{be_bytes, be_value, lemma_be_bound, lemma_be_injective, pow256};
use crate::net::{IpAddr, IpNet, Ipv4Addr, Ipv4Net, Ipv6Addr, Ipv6Net};
use crate::text::{decimal, decimal_text, joined};

verus! {

broadcast use vstd::array::group_array_axioms;

/// Size of an IPv6 address in bytes.
pub const IPV6_ADDR_SIZE: usize = 16;

/// Maximum number of nexthops in one FIB entry.
pub const MAX_NEXTHOPS: usize = 4;

/// The denominator for weights used to steer traffic: all weights sum to it.
pub const WEIGHT_DENOMINATOR: u16 = 10_000;

/// The number of counters in [`CEbpfMetrics`].
pub const COUNTERS: usize = 34;

/// An address as the eBPF programs hold it: sixteen octets in network order,
/// IPv4 in its IPv4-mapped form.
#[derive(Clone, Copy, Debug, PartialEq, Eq, Hash)]
pub struct CIpv6Addr {
    pub octets: [u8; 16],
}

/// The 128 bits under which an address is stored: an IPv4 address behind the
/// prefix `::ffff:0:0/96`, an IPv6 address as it is.
pub open spec fn mapped_bits(addr: IpAddr) -> u128 {
    match addr {
        IpAddr::V4(a) => (0xffff_0000_0000 + a.bits) as u128,
        IpAddr::V6(a) => a.bits,
    }
}

/// The address that 128 stored bits stand for: an IPv4 one behind the prefix
/// `::ffff:0:0/96`, an IPv6 one otherwise.
pub open spec fn addr_of_bits(bits: u128) -> IpAddr {
    match (Ipv6Addr { bits }).v4_mapped() {
        Some(a) => IpAddr::V4(a),
        None => IpAddr::V6(Ipv6Addr { bits }),
    }
}

impl CIpv6Addr {
    /// The number that the octets stand for.
    pub open spec fn bits(self) -> nat {
        be_value(self.octets@)
    }

    /// The all-zero address.
    pub fn unspecified() -> (r: CIpv6Addr)
        ensures
            r.bits() == 0,
            r.octets@ == Seq::new(16, |i: int| 0u8),
    {
        let r = CIpv6Addr { octets: [0; 16] };
        assert(r.octets@ =~= Seq::new(16, |i: int| 0u8));
        proof {
            reveal_with_fuel(be_value, 17);
        }
        r
    }

    /// The stored form of an address.
    pub fn from(addr: IpAddr) -> (r: CIpv6Addr)
        ensures
            r.bits() == mapped_bits(addr),
    {
        let bits: u128 = mapped(addr);
        proof {
            reveal_with_fuel(pow256, 17);
        }
        let v = be_bytes(bits, 16);
        let r = CIpv6Addr { octets: [v[0], v[1], v[2], v[3], v[4], v[5], v[6], v[7], v[8], v[9], v[10], v[11], v[12], v[13], v[14], v[15]] };
        assert(r.octets@ =~= v@);
        r
    }

    fn to_bits(&self) -> (r: u128)
        ensures
            r == self.bits(),
    {
        let mut acc: u128 = 0;
        let mut i: usize = 0;
        while i < 16
            invariant
                i <= 16,
                acc == be_value(self.octets@.take(i as int)),
            decreases 16 - i,
        {
            proof {
                let whole = self.octets@;
                lemma_be_bound(whole.take(i as int));
                reveal_with_fuel(pow256, 17);
                assert(whole.take(i + 1).drop_last() =~= whole.take(i as int));
            }
            acc = acc * 256 + self.octets[i] as u128;
            i += 1;
        }
        assert(self.octets@.take(16) =~= self.octets@);
        acc
    }
}

/// The 128 bits under which `addr` is stored.
pub fn mapped(addr: IpAddr) -> (r: u128)
    ensures
        r == mapped_bits(addr),
{
    match addr {
        IpAddr::V4(a) => 0xffff_0000_0000 + a.bits as u128,
        IpAddr::V6(a) => a.bits,
    }
}

impl IpAddr {
    /// The address that a stored one stands for.
    pub fn from(addr: CIpv6Addr) -> (r: IpAddr)
        ensures
            r == addr_of_bits(addr.bits() as u128),
    {
        let v6 = Ipv6Addr { bits: addr.to_bits() };
        match v6.to_ipv4_mapped() {
            Some(v4) => IpAddr::V4(v4),
            None => IpAddr::V6(v6),
        }
    }
}

/// Storing an address and reading it back gives the address, unless it is an
/// IPv6 address that is itself IPv4-mapped.
pub proof fn law_addr_round_trip(addr: IpAddr)
    requires
        addr is V6 ==> addr->V6_0.v4_mapped() is None,
    ensures
        addr_of_bits(mapped_bits(addr)) == addr,
{
}

/// A stored address determines its sixteen octets.
pub proof fn law_octets_determined(a: CIpv6Addr, b: CIpv6Addr)
    requires
        a.bits() == b.bits(),
    ensures
        a == b,
{
    lemma_be_injective(a.octets@, b.octets@);
    assert(a.octets =~= b.octets);
}

/// A prefix as the eBPF programs hold it, the key of the FIB.
#[derive(Clone, Copy, Debug, PartialEq, Eq, Hash)]
pub struct CNlri {
    pub prefix_len: u32,
    pub address: CIpv6Addr,
}

/// Why a stored prefix stands for no network.
#[derive(Clone, Copy, Debug, PartialEq, Eq, Structural)]
pub enum NlriError {
    /// An IPv4-mapped prefix whose length lies outside `96..=128`.
    MappedPrefixLen(u32),
    /// An IPv6 prefix whose length exceeds 128.
    PrefixLen(u32),
}

impl NlriError {
    /// What is said of it.
    pub open spec fn text(self) -> Seq<char> {
        match self {
            NlriError::MappedPrefixLen(n) => "ipv4-mapped nlri has invalid prefix length "@
                + decimal(n as nat),
            NlriError::PrefixLen(n) => "ipv6 nlri has invalid prefix length "@ + decimal(n as nat),
        }
    }

    /// The error as text.
    pub fn to_text(&self) -> (r: String)
        ensures
            r@ == self.text(),
    {
        match self {
            NlriError::MappedPrefixLen(n) => joined(
                "ipv4-mapped nlri has invalid prefix length ",
                decimal_text(*n as u64).as_str(),
            ),
            NlriError::PrefixLen(n) => joined(
                "ipv6 nlri has invalid prefix length ",
                decimal_text(*n as u64).as_str(),
            ),
        }
    }
}

/// The prefix length under which a network is stored: IPv4 lengths are counted
/// from behind the 96 bits of the mapping prefix.
pub open spec fn mapped_len(net: IpNet) -> u32 {
    match net {
        IpNet::V4(n) => (n.prefix_len + 96) as u32,
        IpNet::V6(n) => n.prefix_len as u32,
    }
}

/// The network that a stored prefix stands for.
pub open spec fn net_of(prefix_len: u32, bits: u128) -> Result<IpNet, NlriError> {
    match (Ipv6Addr { bits }).v4_mapped() {
        Some(addr) => if 96 <= prefix_len <= 128 {
            Ok(IpNet::V4(Ipv4Net { addr, prefix_len: (prefix_len - 96) as u8 }))
        } else {
            Err(NlriError::MappedPrefixLen(prefix_len))
        },
        None => if prefix_len <= 128 {
            Ok(IpNet::V6(Ipv6Net { addr: Ipv6Addr { bits }, prefix_len: prefix_len as u8 }))
        } else {
            Err(NlriError::PrefixLen(prefix_len))
        },
    }
}

impl CNlri {
    /// The stored form of a network.
    pub fn from(prefix: IpNet) -> (r: CNlri)
        ensures
            r.prefix_len == mapped_len(prefix),
            r.address.bits() == mapped_bits(prefix.spec_addr()),
    {
        let addr = prefix.addr();
        let prefix_len: u32 = prefix.prefix_len() as u32;
        CNlri {
            prefix_len: match addr {
                // IPv4 lookups would otherwise match any `::ffff:0:0/96` prefix.
                IpAddr::V4(_) => prefix_len + 96,
                IpAddr::V6(_) => prefix_len,
            },
            address: CIpv6Addr::from(addr),
        }
    }
}

impl IpNet {
    /// The network that a stored prefix stands for.
    pub fn try_from(nlri: CNlri) -> (r: Result<IpNet, NlriError>)
        ensures
            r == net_of(nlri.prefix_len, nlri.address.bits() as u128),
            r is Ok ==> r->Ok_0.wf(),
    {
        let addr = Ipv6Addr { bits: nlri.address.to_bits() };
        match addr.to_ipv4_mapped() {
            Some(v4) => {
                if nlri.prefix_len < 96 || nlri.prefix_len - 96 > 32 {
                    return Err(NlriError::MappedPrefixLen(nlri.prefix_len));
                }
                match Ipv4Net::new(v4, (nlri.prefix_len - 96) as u8) {
                    Ok(net) => Ok(IpNet::V4(net)),
                    Err(_) => Err(NlriError::MappedPrefixLen(nlri.prefix_len)),
                }
            },
            None => {
                if nlri.prefix_len > 128 {
                    return Err(NlriError::PrefixLen(nlri.prefix_len));
                }
                match Ipv6Net::new(addr, nlri.prefix_len as u8) {
                    Ok(net) => Ok(IpNet::V6(net)),
                    Err(_) => Err(NlriError::PrefixLen(nlri.prefix_len)),
                }
            },
        }
    }
}

/// The stored form of a network stands for that network, unless it is an IPv6
/// network whose address is IPv4-mapped.
pub proof fn law_nlri_round_trip(net: IpNet)
    requires
        net.wf(),
        net is V6 ==> net->V6_0.addr.v4_mapped() is None,
    ensures
        net_of(mapped_len(net), mapped_bits(net.spec_addr())) == Ok::<IpNet, NlriError>(net),
{
}

/// No two networks share one key, unless one of them is an IPv6 network whose
/// address is IPv4-mapped.
pub proof fn law_nlri_keys_distinct(a: IpNet, b: IpNet)
    requires
        a.wf(),
        b.wf(),
        a is V6 ==> a->V6_0.addr.v4_mapped() is None,
        b is V6 ==> b->V6_0.addr.v4_mapped() is None,
        mapped_len(a) == mapped_len(b),
        mapped_bits(a.spec_addr()) == mapped_bits(b.spec_addr()),
    ensures
        a == b,
{
    law_nlri_round_trip(a);
    law_nlri_round_trip(b);
}

/// A FIB value as the eBPF programs hold it.
#[derive(Clone, Copy, Debug, PartialEq, Eq, Hash)]
pub struct CFibEntry {
    pub matched_nlri: CNlri,
    pub nexthop_count: u32,
    pub nexthops: [CIpv6Addr; 4],
    pub weights: [u16; 4],
}

impl CFibEntry {
    /// The stored form of the nexthops and weights for a network.
    pub fn new(
        matched_nlri: IpNet,
        nexthop_count: usize,
        nexthop_addrs: &[IpAddr; 4],
        weights: &[u16; 4],
    ) -> (r: CFibEntry)
        ensures
            r.matched_nlri.prefix_len == mapped_len(matched_nlri),
            r.matched_nlri.address.bits() == mapped_bits(matched_nlri.spec_addr()),
            r.nexthop_count == nexthop_count as u32,
            forall|i: int|
                0 <= i < 4 ==> (#[trigger] r.nexthops@[i]).bits() == mapped_bits(nexthop_addrs@[i]),
            r.weights@ == weights@,
    {
        let nexthops = [
            CIpv6Addr::from(nexthop_addrs[0]),
            CIpv6Addr::from(nexthop_addrs[1]),
            CIpv6Addr::from(nexthop_addrs[2]),
            CIpv6Addr::from(nexthop_addrs[3]),
        ];
        CFibEntry {
            matched_nlri: CNlri::from(matched_nlri),
            #[verifier::truncate]
            nexthop_count: nexthop_count as u32,
            nexthops,
            weights: *weights,
        }
    }
}

/// An RTT measurement as the eBPF programs report it.
#[derive(Clone, Copy, Debug, PartialEq, Eq, Hash)]
pub struct CTcpRttEvent {
    pub matched_nlri: CNlri,
    pub nexthop: CIpv6Addr,
    pub padding: u32,
    pub ts_ns: u64,
    pub srtt_us: u32,
    pub rtt_min: u32,
}

/// The counters that the eBPF programs keep.
#[derive(Clone, Copy, Debug, PartialEq, Eq, Hash)]
pub struct CEbpfMetrics {
    // erez_decap metrics.
    pub decap_decapsulated_packets_total: u64,
    pub decap_errors_total_decap_failed: u64,
    pub decap_errors_total_decrement_inner_ttl_failed: u64,
    pub decap_errors_total_fib_lookup_failed: u64,
    pub decap_errors_total_redirect_failed: u64,
    pub decap_errors_total_same_ifindex: u64,
    pub decap_parse_errors_total_short_packet: u64,
    pub decap_processed_packets_total: u64,
    pub decap_redirected_packets_total: u64,
    pub decap_skipped_packets_total_unsupported_inner_l3_proto: u64,
    pub decap_skipped_packets_total_unsupported_outer_l3_proto: u64,
    pub decap_skipped_packets_total_unsupported_outer_l4_proto: u64,
    // erez_encap metrics.
    pub encap_encapsulated_packets_total: u64,
    pub encap_errors_total_encap_failed: u64,
    pub encap_fib_entry_validation_errors_total_invalid_nexthop_count: u64,
    pub encap_fib_entry_validation_errors_total_zero_weight: u64,
    pub encap_fib_entry_validation_errors_total_invalid_weight_sum: u64,
    pub encap_fib_hits_total: u64,
    pub encap_fib_misses_total: u64,
    pub encap_parse_errors_total_dest_nlri_load: u64,
    pub encap_parse_errors_total_l4_proto_load: u64,
    pub encap_processed_packets_total: u64,
    pub encap_skipped_packets_total_unsupported_l3_proto: u64,
    pub encap_skipped_packets_total_unsupported_l4_proto: u64,
    pub encap_sticky_nexthop_total_hit: u64,
    pub encap_sticky_nexthop_total_miss: u64,
    pub encap_sticky_nexthop_total_store: u64,
    // erez_sockops metrics.
    pub sockops_rtt_callback_registrations_total_success: u64,
    pub sockops_rtt_callback_registrations_total_failed: u64,
    pub sockops_rtt_callbacks_total: u64,
    pub sockops_rtt_events_total: u64,
    pub sockops_rtt_event_drops_total_ringbuf_full: u64,
    pub sockops_rtt_skipped_total_sticky_nexthop_miss: u64,
    pub sockops_rtt_skipped_total_unsupported_family: u64,
}

impl Default for CEbpfMetrics {
    fn default() -> (r: CEbpfMetrics)
        ensures
            r.counters() == Seq::new(34, |i: int| 0u64),
    {
        let r = CEbpfMetrics {
            decap_decapsulated_packets_total: 0,
            decap_errors_total_decap_failed: 0,
            decap_errors_total_decrement_inner_ttl_failed: 0,
            decap_errors_total_fib_lookup_failed: 0,
            decap_errors_total_redirect_failed: 0,
            decap_errors_total_same_ifindex: 0,
            decap_parse_errors_total_short_packet: 0,
            decap_processed_packets_total: 0,
            decap_redirected_packets_total: 0,
            decap_skipped_packets_total_unsupported_inner_l3_proto: 0,
            decap_skipped_packets_total_unsupported_outer_l3_proto: 0,
            decap_skipped_packets_total_unsupported_outer_l4_proto: 0,
            encap_encapsulated_packets_total: 0,
            encap_errors_total_encap_failed: 0,
            encap_fib_entry_validation_errors_total_invalid_nexthop_count: 0,
            encap_fib_entry_validation_errors_total_zero_weight: 0,
            encap_fib_entry_validation_errors_total_invalid_weight_sum: 0,
            encap_fib_hits_total: 0,
            encap_fib_misses_total: 0,
            encap_parse_errors_total_dest_nlri_load: 0,
            encap_parse_errors_total_l4_proto_load: 0,
            encap_processed_packets_total: 0,
            encap_skipped_packets_total_unsupported_l3_proto: 0,
            encap_skipped_packets_total_unsupported_l4_proto: 0,
            encap_sticky_nexthop_total_hit: 0,
            encap_sticky_nexthop_total_miss: 0,
            encap_sticky_nexthop_total_store: 0,
            sockops_rtt_callback_registrations_total_success: 0,
            sockops_rtt_callback_registrations_total_failed: 0,
            sockops_rtt_callbacks_total: 0,
            sockops_rtt_events_total: 0,
            sockops_rtt_event_drops_total_ringbuf_full: 0,
            sockops_rtt_skipped_total_sticky_nexthop_miss: 0,
            sockops_rtt_skipped_total_unsupported_family: 0,
        };
        assert(r.counters() =~= Seq::new(34, |i: int| 0u64));
        r
    }
}

impl CEbpfMetrics {
    /// The counters in the order in which they are laid out.
    pub open spec fn counters(self) -> Seq<u64> {
        seq![
            self.decap_decapsulated_packets_total,
            self.decap_errors_total_decap_failed,
            self.decap_errors_total_decrement_inner_ttl_failed,
            self.decap_errors_total_fib_lookup_failed,
            self.decap_errors_total_redirect_failed,
            self.decap_errors_total_same_ifindex,
            self.decap_parse_errors_total_short_packet,
            self.decap_processed_packets_total,
            self.decap_redirected_packets_total,
            self.decap_skipped_packets_total_unsupported_inner_l3_proto,
            self.decap_skipped_packets_total_unsupported_outer_l3_proto,
            self.decap_skipped_packets_total_unsupported_outer_l4_proto,
            self.encap_encapsulated_packets_total,
            self.encap_errors_total_encap_failed,
            self.encap_fib_entry_validation_errors_total_invalid_nexthop_count,
            self.encap_fib_entry_validation_errors_total_zero_weight,
            self.encap_fib_entry_validation_errors_total_invalid_weight_sum,
            self.encap_fib_hits_total,
            self.encap_fib_misses_total,
            self.encap_parse_errors_total_dest_nlri_load,
            self.encap_parse_errors_total_l4_proto_load,
            self.encap_processed_packets_total,
            self.encap_skipped_packets_total_unsupported_l3_proto,
            self.encap_skipped_packets_total_unsupported_l4_proto,
            self.encap_sticky_nexthop_total_hit,
            self.encap_sticky_nexthop_total_miss,
            self.encap_sticky_nexthop_total_store,
            self.sockops_rtt_callback_registrations_total_success,
            self.sockops_rtt_callback_registrations_total_failed,
            self.sockops_rtt_callbacks_total,
            self.sockops_rtt_events_total,
            self.sockops_rtt_event_drops_total_ringbuf_full,
            self.sockops_rtt_skipped_total_sticky_nexthop_miss,
            self.sockops_rtt_skipped_total_unsupported_family,
        ]
    }

    /// The counters in the order in which they are laid out.
    pub fn as_counter_slice(&self) -> (r: Vec<u64>)
        ensures
            r@ == self.counters(),
    {
        let r = vec![
            self.decap_decapsulated_packets_total,
            self.decap_errors_total_decap_failed,
            self.decap_errors_total_decrement_inner_ttl_failed,
            self.decap_errors_total_fib_lookup_failed,
            self.decap_errors_total_redirect_failed,
            self.decap_errors_total_same_ifindex,
            self.decap_parse_errors_total_short_packet,
            self.decap_processed_packets_total,
            self.decap_redirected_packets_total,
            self.decap_skipped_packets_total_unsupported_inner_l3_proto,
            self.decap_skipped_packets_total_unsupported_outer_l3_proto,
            self.decap_skipped_packets_total_unsupported_outer_l4_proto,
            self.encap_encapsulated_packets_total,
            self.encap_errors_total_encap_failed,
            self.encap_fib_entry_validation_errors_total_invalid_nexthop_count,
            self.encap_fib_entry_validation_errors_total_zero_weight,
            self.encap_fib_entry_validation_errors_total_invalid_weight_sum,
            self.encap_fib_hits_total,
            self.encap_fib_misses_total,
            self.encap_parse_errors_total_dest_nlri_load,
            self.encap_parse_errors_total_l4_proto_load,
            self.encap_processed_packets_total,
            self.encap_skipped_packets_total_unsupported_l3_proto,
            self.encap_skipped_packets_total_unsupported_l4_proto,
            self.encap_sticky_nexthop_total_hit,
            self.encap_sticky_nexthop_total_miss,
            self.encap_sticky_nexthop_total_store,
            self.sockops_rtt_callback_registrations_total_success,
            self.sockops_rtt_callback_registrations_total_failed,
            self.sockops_rtt_callbacks_total,
            self.sockops_rtt_events_total,
            self.sockops_rtt_event_drops_total_ringbuf_full,
            self.sockops_rtt_skipped_total_sticky_nexthop_miss,
            self.sockops_rtt_skipped_total_unsupported_family,
        ];
        assert(r@ =~= self.counters());
        r
    }

    /// The metrics whose counters are the given ones, in layout order.
    pub fn of_counters(c: &Vec<u64>) -> (r: CEbpfMetrics)
        requires
            c@.len() == 34,
        ensures
            r.counters() == c@,
    {
        let r = CEbpfMetrics {
            decap_decapsulated_packets_total: c[0],
            decap_errors_total_decap_failed: c[1],
            decap_errors_total_decrement_inner_ttl_failed: c[2],
            decap_errors_total_fib_lookup_failed: c[3],
            decap_errors_total_redirect_failed: c[4],
            decap_errors_total_same_ifindex: c[5],
            decap_parse_errors_total_short_packet: c[6],
            decap_processed_packets_total: c[7],
            decap_redirected_packets_total: c[8],
            decap_skipped_packets_total_unsupported_inner_l3_proto: c[9],
            decap_skipped_packets_total_unsupported_outer_l3_proto: c[10],
            decap_skipped_packets_total_unsupported_outer_l4_proto: c[11],
            encap_encapsulated_packets_total: c[12],
            encap_errors_total_encap_failed: c[13],
            encap_fib_entry_validation_errors_total_invalid_nexthop_count: c[14],
            encap_fib_entry_validation_errors_total_zero_weight: c[15],
            encap_fib_entry_validation_errors_total_invalid_weight_sum: c[16],
            encap_fib_hits_total: c[17],
            encap_fib_misses_total: c[18],
            encap_parse_errors_total_dest_nlri_load: c[19],
            encap_parse_errors_total_l4_proto_load: c[20],
            encap_processed_packets_total: c[21],
            encap_skipped_packets_total_unsupported_l3_proto: c[22],
            encap_skipped_packets_total_unsupported_l4_proto: c[23],
            encap_sticky_nexthop_total_hit: c[24],
            encap_sticky_nexthop_total_miss: c[25],
            encap_sticky_nexthop_total_store: c[26],
            sockops_rtt_callback_registrations_total_success: c[27],
            sockops_rtt_callback_registrations_total_failed: c[28],
            sockops_rtt_callbacks_total: c[29],
            sockops_rtt_events_total: c[30],
            sockops_rtt_event_drops_total_ringbuf_full: c[31],
            sockops_rtt_skipped_total_sticky_nexthop_miss: c[32],
            sockops_rtt_skipped_total_unsupported_family: c[33],
        };
        assert(r.counters() =~= c@);
        r
    }

    /// Every counter of the two, added up, fits its 64 bits.
    pub open spec fn fits(self, other: CEbpfMetrics) -> bool {
        forall|i: int|
            0 <= i < 34 ==> #[trigger] self.counters()[i] + other.counters()[i] <= u64::MAX
    }

    /// Adds every counter of `other` to the same counter of `self`.
    pub fn add_assign(&mut self, other: CEbpfMetrics)
        requires
            old(self).fits(other),
        ensures
            forall|i: int|
                0 <= i < 34 ==> #[trigger] final(self).counters()[i] == old(self).counters()[i]
                    + other.counters()[i],
    {
        let mut sums = self.as_counter_slice();
        let others = other.as_counter_slice();
        let ghost start = sums@;
        let mut i: usize = 0;
        while i < 34
            invariant
                i <= 34,
                start == old(self).counters(),
                others@ == other.counters(),
                sums@.len() == 34,
                old(self).fits(other),
                forall|j: int| 0 <= j < i ==> #[trigger] sums@[j] == start[j] + others@[j],
                forall|j: int| i <= j < 34 ==> #[trigger] sums@[j] == start[j],
            decreases 34 - i,
        {
            assert(start[i as int] + others@[i as int] <= u64::MAX);
            let sum: u64 = sums[i] + others[i];
            sums.set(i, sum);
            i += 1;
        }
        *self = CEbpfMetrics::of_counters(&sums);
    }
}

/// IPv4 addresses are stored behind the sixteen set bits that mark them, IPv6
/// addresses as they are.
pub proof fn law_stored_addresses(v4: u32, v6: u128)
    ensures
        mapped_bits(IpAddr::V4(Ipv4Addr { bits: v4 })) == 0xffff_0000_0000 + v4,
        mapped_bits(IpAddr::V6(Ipv6Addr { bits: v6 })) == v6,
{
}

/// Stored addresses from `::ffff:0.0.0.0` to `::ffff:255.255.255.255` are IPv4
/// addresses, all others IPv6.
pub proof fn law_stored_address_families(bits: u128)
    ensures
        addr_of_bits(bits) is V4 <==> 0xffff_0000_0000 <= bits <= 0xffff_ffff_ffff,
        addr_of_bits(bits) is V4 ==> addr_of_bits(bits)->V4_0.bits + 0xffff_0000_0000 == bits,
        addr_of_bits(bits) is V6 ==> addr_of_bits(bits)->V6_0.bits == bits,
{
}

/// The length of a stored prefix counts the 96 bits ahead of an IPv4 address.
pub proof fn law_stored_lengths(v4: Ipv4Net, v6: Ipv6Net)
    ensures
        mapped_len(IpNet::V4(v4)) == v4.prefix_len + 96,
        mapped_len(IpNet::V6(v6)) == v6.prefix_len,
{
}

/// What a stored prefix stands for. An IPv4-mapped one needs a length of 96 to 128,
/// any other one of 0 to 128; and whatever stands for a network has its address and
/// its length.
pub proof fn law_stored_prefixes(prefix_len: u32, bits: u128)
    ensures
        0xffff_0000_0000 <= bits <= 0xffff_ffff_ffff ==> match net_of(prefix_len, bits) {
            Ok(net) => 96 <= prefix_len <= 128 && net is V4 && net->V4_0.addr.bits
                + 0xffff_0000_0000 == bits && net->V4_0.prefix_len + 96 == prefix_len,
            Err(e) => (prefix_len < 96 || prefix_len > 128) && e == NlriError::MappedPrefixLen(
                prefix_len,
            ),
        },
        !(0xffff_0000_0000 <= bits <= 0xffff_ffff_ffff) ==> match net_of(prefix_len, bits) {
            Ok(net) => prefix_len <= 128 && net is V6 && net->V6_0.addr.bits == bits
                && net->V6_0.prefix_len == prefix_len,
            Err(e) => prefix_len > 128 && e == NlriError::PrefixLen(prefix_len),
        },
{
}

/// The bits of a stored address are its octets, the most significant first.
pub proof fn law_octets_are_bits(addr: CIpv6Addr)
    ensures
        addr.bits() == be_value(addr.octets@),
        addr.bits() <= u128::MAX,
{
    lemma_be_bound(addr.octets@);
    assert(pow256(16) == 0x1_0000_0000_0000_0000_0000_0000_0000_0000) by {
        reveal_with_fuel(pow256, 17);
    }
}

/// The counters stand in the order in which the eBPF programs declare them.
pub proof fn law_counters_in_order(m: CEbpfMetrics)
    ensures
        m.counters().len() == 34,
        m.counters()[0] == m.decap_decapsulated_packets_total,
        m.counters()[1] == m.decap_errors_total_decap_failed,
        m.counters()[2] == m.decap_errors_total_decrement_inner_ttl_failed,
        m.counters()[3] == m.decap_errors_total_fib_lookup_failed,
        m.counters()[4] == m.decap_errors_total_redirect_failed,
        m.counters()[5] == m.decap_errors_total_same_ifindex,
        m.counters()[6] == m.decap_parse_errors_total_short_packet,
        m.counters()[7] == m.decap_processed_packets_total,
        m.counters()[8] == m.decap_redirected_packets_total,
        m.counters()[9] == m.decap_skipped_packets_total_unsupported_inner_l3_proto,
        m.counters()[10] == m.decap_skipped_packets_total_unsupported_outer_l3_proto,
        m.counters()[11] == m.decap_skipped_packets_total_unsupported_outer_l4_proto,
        m.counters()[12] == m.encap_encapsulated_packets_total,
        m.counters()[13] == m.encap_errors_total_encap_failed,
        m.counters()[14] == m.encap_fib_entry_validation_errors_total_invalid_nexthop_count,
        m.counters()[15] == m.encap_fib_entry_validation_errors_total_zero_weight,
        m.counters()[16] == m.encap_fib_entry_validation_errors_total_invalid_weight_sum,
        m.counters()[17] == m.encap_fib_hits_total,
        m.counters()[18] == m.encap_fib_misses_total,
        m.counters()[19] == m.encap_parse_errors_total_dest_nlri_load,
        m.counters()[20] == m.encap_parse_errors_total_l4_proto_load,
        m.counters()[21] == m.encap_processed_packets_total,
        m.counters()[22] == m.encap_skipped_packets_total_unsupported_l3_proto,
        m.counters()[23] == m.encap_skipped_packets_total_unsupported_l4_proto,
        m.counters()[24] == m.encap_sticky_nexthop_total_hit,
        m.counters()[25] == m.encap_sticky_nexthop_total_miss,
        m.counters()[26] == m.encap_sticky_nexthop_total_store,
        m.counters()[27] == m.sockops_rtt_callback_registrations_total_success,
        m.counters()[28] == m.sockops_rtt_callback_registrations_total_failed,
        m.counters()[29] == m.sockops_rtt_callbacks_total,
        m.counters()[30] == m.sockops_rtt_events_total,
        m.counters()[31] == m.sockops_rtt_event_drops_total_ringbuf_full,
        m.counters()[32] == m.sockops_rtt_skipped_total_sticky_nexthop_miss,
        m.counters()[33] == m.sockops_rtt_skipped_total_unsupported_family,
{
}

/// Counters fit where each pair of them has a sum that 64 bits can hold.
pub proof fn law_fitting_counters(a: CEbpfMetrics, b: CEbpfMetrics)
    ensures
        a.fits(b) <==> forall|i: int|
            0 <= i < a.counters().len() ==> #[trigger] a.counters()[i] + b.counters()[i]
                <= 0xffff_ffff_ffff_ffff,
{
}

/// What is said of a bad prefix ends with the length that it was found with.
pub proof fn law_bad_lengths_are_told(n: u32)
    ensures
        NlriError::MappedPrefixLen(n).text() == "ipv4-mapped nlri has invalid prefix length "@
            + decimal(n as nat),
        NlriError::PrefixLen(n).text() == "ipv6 nlri has invalid prefix length "@ + decimal(
            n as nat,
        ),
{
}

} // verus!
