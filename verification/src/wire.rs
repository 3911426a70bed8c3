//! The values of [`crate::bpf_abi`] as the bytes that pass through eBPF maps.

use vstd::prelude::*;

use crate::bpf_abi::{CEbpfMetrics, CFibEntry, CIpv6Addr, CNlri, CTcpRttEvent};
use crate::bytes::{get_word, lemma_word_injective, pow256, put_word, word, ByteOrder};

verus! {

broadcast use vstd::array::group_array_axioms;

/// Size of a [`CNlri`] in bytes.
pub const NLRI_SIZE: usize = 20;

/// Size of a [`CFibEntry`] in bytes.
pub const FIB_ENTRY_SIZE: usize = 96;

/// Size of a [`CTcpRttEvent`] in bytes.
pub const RTT_EVENT_SIZE: usize = 56;

/// Size of a [`CEbpfMetrics`] in bytes.
pub const METRICS_SIZE: usize = 272;

/// The bytes are not as many as the value takes.
#[derive(Clone, Copy, Debug, PartialEq, Eq, Structural)]
pub struct SizeMismatch;

fn octets_at(bytes: &[u8], at: usize) -> (r: CIpv6Addr)
    requires
        at + 16 <= bytes@.len(),
        at <= 1000,
    ensures
        r.octets@ == bytes@.subrange(at as int, at + 16),
{
    let r = CIpv6Addr {
        octets: [
            bytes[at],
            bytes[at + 1],
            bytes[at + 2],
            bytes[at + 3],
            bytes[at + 4],
            bytes[at + 5],
            bytes[at + 6],
            bytes[at + 7],
            bytes[at + 8],
            bytes[at + 9],
            bytes[at + 10],
            bytes[at + 11],
            bytes[at + 12],
            bytes[at + 13],
            bytes[at + 14],
            bytes[at + 15],
        ],
    };
    assert(r.octets@ =~= bytes@.subrange(at as int, at + 16));
    r
}

fn put_octets(out: &mut Vec<u8>, addr: &CIpv6Addr)
    ensures
        final(out)@ == old(out)@ + addr.octets@,
{
    let ghost start = out@;
    let mut i: usize = 0;
    while i < 16
        invariant
            i <= 16,
            out@ == start + addr.octets@.take(i as int),
        decreases 16 - i,
    {
        out.push(addr.octets[i]);
        i += 1;
        assert(out@ =~= start + addr.octets@.take(i as int));
    }
    assert(addr.octets@.take(16) =~= addr.octets@);
}

/// What stands in `whole` where it continues `part` by one number.
proof fn lemma_field(part: Seq<u8>, whole: Seq<u8>, later: Seq<u8>, width: int)
    requires
        whole.len() == part.len() + width,
        width >= 0,
        later.len() >= whole.len(),
        later.take(whole.len() as int) == whole,
    ensures
        later.subrange(part.len() as int, whole.len() as int) == whole.skip(part.len() as int),
{
    assert(later.subrange(part.len() as int, whole.len() as int) =~= later.take(
        whole.len() as int,
    ).skip(part.len() as int));
}

/// `a` is `b` followed by more.
proof fn lemma_take_take(a: Seq<u8>, b: Seq<u8>, c: Seq<u8>)
    requires
        a.len() >= b.len() >= c.len(),
        a.take(b.len() as int) == b,
        b.take(c.len() as int) == c,
    ensures
        a.take(c.len() as int) == c,
{
    assert(a.take(c.len() as int) =~= a.take(b.len() as int).take(c.len() as int));
}

impl CNlri {
    /// `bytes` are this value: the prefix length, then the octets.
    pub open spec fn laid_out(self, bytes: Seq<u8>, order: ByteOrder) -> bool {
        &&& bytes.len() == 20
        &&& word(bytes.subrange(0, 4), order) == self.prefix_len
        &&& bytes.subrange(4, 20) == self.address.octets@
    }

    /// The bytes of the value.
    pub fn to_bytes(&self, order: ByteOrder) -> (r: Vec<u8>)
        ensures
            self.laid_out(r@, order),
    {
        let mut out: Vec<u8> = Vec::new();
        proof {
            reveal_with_fuel(pow256, 5);
        }
        put_word(&mut out, self.prefix_len as u128, 4, order);
        let ghost head = out@;
        put_octets(&mut out, &self.address);
        assert(out@.subrange(0, 4) =~= head.skip(0));
        assert(out@.subrange(4, 20) =~= self.address.octets@);
        out
    }

    /// Reads the value.
    pub fn from_bytes(bytes: &[u8], order: ByteOrder) -> (r: Result<CNlri, SizeMismatch>)
        ensures
            r is Ok <==> bytes@.len() == 20,
            r is Ok ==> r->Ok_0.laid_out(bytes@, order),
    {
        if bytes.len() != 20 {
            return Err(SizeMismatch);
        }
        proof {
            reveal_with_fuel(pow256, 5);
        }
        Ok(
            CNlri {
                prefix_len: get_word(bytes, 0, 4, order) as u32,
                address: octets_at(bytes, 4),
            },
        )
    }
}

/// The bytes of a prefix belong to no other prefix, so that reading gives back
/// what was written.
pub proof fn law_nlri_bytes(a: CNlri, b: CNlri, bytes: Seq<u8>, order: ByteOrder)
    requires
        a.laid_out(bytes, order),
        b.laid_out(bytes, order),
    ensures
        a == b,
{
    assert(a.address.octets =~= b.address.octets);
}

/// A prefix has one byte string: what was read is written back as it was.
pub proof fn law_nlri_bytes_unique(a: CNlri, s: Seq<u8>, t: Seq<u8>, order: ByteOrder)
    requires
        a.laid_out(s, order),
        a.laid_out(t, order),
    ensures
        s == t,
{
    lemma_word_injective(s.subrange(0, 4), t.subrange(0, 4), order);
    assert(s =~= s.subrange(0, 4) + s.subrange(4, 20));
    assert(t =~= t.subrange(0, 4) + t.subrange(4, 20));
}

impl CFibEntry {
    /// `bytes` are this value: the prefix, the count, the four nexthops and the
    /// four weights.
    pub open spec fn laid_out(self, bytes: Seq<u8>, order: ByteOrder) -> bool {
        &&& bytes.len() == 96
        &&& self.matched_nlri.laid_out(bytes.subrange(0, 20), order)
        &&& word(bytes.subrange(20, 24), order) == self.nexthop_count
        &&& forall|i: int|
            0 <= i < 4 ==> bytes.subrange(24 + 16 * i, 40 + 16 * i) == (
            #[trigger] self.nexthops@[i]).octets@
        &&& forall|i: int|
            0 <= i < 4 ==> word(bytes.subrange(88 + 2 * i, 90 + 2 * i), order)
                == #[trigger] self.weights@[i]
    }

    /// The bytes of the value.
    pub fn to_bytes(&self, order: ByteOrder) -> (r: Vec<u8>)
        ensures
            self.laid_out(r@, order),
    {
        proof {
            reveal_with_fuel(pow256, 5);
        }
        let mut out = self.matched_nlri.to_bytes(order);
        let ghost b0 = out@;
        put_word(&mut out, self.nexthop_count as u128, 4, order);
        let ghost b1 = out@;
        let mut i: usize = 0;
        while i < 4
            invariant
                i <= 4,
                b1.len() == 24,
                out@.len() == 24 + 16 * i,
                out@.take(24) == b1,
                forall|j: int|
                    0 <= j < i ==> out@.subrange(24 + 16 * j, 40 + 16 * j) == (
                    #[trigger] self.nexthops@[j]).octets@,
            decreases 4 - i,
        {
            let ghost before = out@;
            put_octets(&mut out, &self.nexthops[i]);
            proof {
                assert(out@.take(24) =~= before.take(24));
                assert forall|j: int| 0 <= j < i + 1 implies out@.subrange(
                    24 + 16 * j,
                    40 + 16 * j,
                ) == (#[trigger] self.nexthops@[j]).octets@ by {
                    if j < i {
                        assert(out@.subrange(24 + 16 * j, 40 + 16 * j) =~= before.subrange(
                            24 + 16 * j,
                            40 + 16 * j,
                        ));
                    } else {
                        assert(out@.subrange(24 + 16 * j, 40 + 16 * j)
                            =~= self.nexthops@[j].octets@);
                    }
                }
            }
            i += 1;
        }
        let ghost b2 = out@;
        let mut k: usize = 0;
        while k < 4
            invariant
                k <= 4,
                b2.len() == 88,
                out@.len() == 88 + 2 * k,
                out@.take(88) == b2,
                forall|j: int|
                    0 <= j < k ==> word(out@.subrange(88 + 2 * j, 90 + 2 * j), order)
                        == #[trigger] self.weights@[j],
            decreases 4 - k,
        {
            let ghost before = out@;
            proof {
                reveal_with_fuel(pow256, 5);
            }
            put_word(&mut out, self.weights[k] as u128, 2, order);
            proof {
                lemma_take_take(out@, before, b2);
                assert forall|j: int| 0 <= j < k + 1 implies word(
                    out@.subrange(88 + 2 * j, 90 + 2 * j),
                    order,
                ) == #[trigger] self.weights@[j] by {
                    if j < k {
                        assert(out@.subrange(88 + 2 * j, 90 + 2 * j) =~= out@.take(
                            before.len() as int,
                        ).subrange(88 + 2 * j, 90 + 2 * j));
                    } else {
                        assert(out@.subrange(88 + 2 * j, 90 + 2 * j) =~= out@.skip(
                            before.len() as int,
                        ));
                    }
                }
            }
            k += 1;
        }
        proof {
            lemma_take_take(out@, b2, b1);
            lemma_take_take(out@, b1, b0);
            lemma_field(b0, b1, out@, 4);
            assert(out@.subrange(0, 20) =~= out@.take(20));
            assert forall|j: int| 0 <= j < 4 implies out@.subrange(24 + 16 * j, 40 + 16 * j) == (
            #[trigger] self.nexthops@[j]).octets@ by {
                assert(out@.subrange(24 + 16 * j, 40 + 16 * j) =~= out@.take(88).subrange(
                    24 + 16 * j,
                    40 + 16 * j,
                ));
            }
        }
        out
    }

    /// Reads the value.
    pub fn from_bytes(bytes: &[u8], order: ByteOrder) -> (r: Result<CFibEntry, SizeMismatch>)
        ensures
            r is Ok <==> bytes@.len() == 96,
            r is Ok ==> r->Ok_0.laid_out(bytes@, order),
    {
        if bytes.len() != 96 {
            return Err(SizeMismatch);
        }
        proof {
            reveal_with_fuel(pow256, 5);
        }
        let address = octets_at(bytes, 4);
        let matched_nlri = CNlri { prefix_len: get_word(bytes, 0, 4, order) as u32, address };
        assert(bytes@.subrange(0, 20).subrange(0, 4) =~= bytes@.subrange(0, 4));
        assert(bytes@.subrange(0, 20).subrange(4, 20) =~= bytes@.subrange(4, 20));
        let entry = CFibEntry {
            matched_nlri,
            nexthop_count: get_word(bytes, 20, 24, order) as u32,
            nexthops: [
                octets_at(bytes, 24),
                octets_at(bytes, 40),
                octets_at(bytes, 56),
                octets_at(bytes, 72),
            ],
            weights: [
                get_word(bytes, 88, 90, order) as u16,
                get_word(bytes, 90, 92, order) as u16,
                get_word(bytes, 92, 94, order) as u16,
                get_word(bytes, 94, 96, order) as u16,
            ],
        };
        proof {
            assert forall|i: int| 0 <= i < 4 implies bytes@.subrange(24 + 16 * i, 40 + 16 * i) == (
            #[trigger] entry.nexthops@[i]).octets@ by {
                assert(i == 0 || i == 1 || i == 2 || i == 3);
            }
            assert forall|i: int| 0 <= i < 4 implies word(
                bytes@.subrange(88 + 2 * i, 90 + 2 * i),
                order,
            ) == #[trigger] entry.weights@[i] by {
                assert(i == 0 || i == 1 || i == 2 || i == 3);
            }
        }
        Ok(entry)
    }
}

/// The bytes of a FIB value belong to no other one, so that reading gives back
/// what was written.
pub proof fn law_fib_entry_bytes(a: CFibEntry, b: CFibEntry, bytes: Seq<u8>, order: ByteOrder)
    requires
        a.laid_out(bytes, order),
        b.laid_out(bytes, order),
    ensures
        a == b,
{
    law_nlri_bytes(a.matched_nlri, b.matched_nlri, bytes.subrange(0, 20), order);
    assert forall|i: int| 0 <= i < 4 implies a.nexthops@[i] == b.nexthops@[i] by {
        assert(a.nexthops@[i].octets =~= b.nexthops@[i].octets);
    }
    assert(a.nexthops =~= b.nexthops);
    assert forall|i: int| 0 <= i < 4 implies a.weights@[i] == b.weights@[i] by {
        assert(word(bytes.subrange(88 + 2 * i, 90 + 2 * i), order) == a.weights@[i]);
    }
    assert(a.weights =~= b.weights);
}

impl CTcpRttEvent {
    /// `bytes` are this value: the prefix, the nexthop, four bytes of padding,
    /// the time and the two round-trip times.
    pub open spec fn laid_out(self, bytes: Seq<u8>, order: ByteOrder) -> bool {
        &&& bytes.len() == 56
        &&& self.matched_nlri.laid_out(bytes.subrange(0, 20), order)
        &&& bytes.subrange(20, 36) == self.nexthop.octets@
        &&& word(bytes.subrange(36, 40), order) == self.padding
        &&& word(bytes.subrange(40, 48), order) == self.ts_ns
        &&& word(bytes.subrange(48, 52), order) == self.srtt_us
        &&& word(bytes.subrange(52, 56), order) == self.rtt_min
    }

    /// Reads the value.
    pub fn from_bytes(bytes: &[u8], order: ByteOrder) -> (r: Result<CTcpRttEvent, SizeMismatch>)
        ensures
            r is Ok <==> bytes@.len() == 56,
            r is Ok ==> r->Ok_0.laid_out(bytes@, order),
    {
        if bytes.len() != 56 {
            return Err(SizeMismatch);
        }
        proof {
            reveal_with_fuel(pow256, 9);
        }
        let address = octets_at(bytes, 4);
        let matched_nlri = CNlri { prefix_len: get_word(bytes, 0, 4, order) as u32, address };
        assert(bytes@.subrange(0, 20).subrange(0, 4) =~= bytes@.subrange(0, 4));
        assert(bytes@.subrange(0, 20).subrange(4, 20) =~= bytes@.subrange(4, 20));
        Ok(
            CTcpRttEvent {
                matched_nlri,
                nexthop: octets_at(bytes, 20),
                padding: get_word(bytes, 36, 40, order) as u32,
                ts_ns: get_word(bytes, 40, 48, order) as u64,
                srtt_us: get_word(bytes, 48, 52, order) as u32,
                rtt_min: get_word(bytes, 52, 56, order) as u32,
            },
        )
    }
}

impl CEbpfMetrics {
    /// `bytes` are this value: one counter after the other.
    pub open spec fn laid_out(self, bytes: Seq<u8>, order: ByteOrder) -> bool {
        &&& bytes.len() == 272
        &&& forall|i: int|
            0 <= i < 34 ==> word(bytes.subrange(8 * i, 8 * i + 8), order)
                == #[trigger] self.counters()[i]
    }

    /// Reads the value.
    pub fn from_bytes(bytes: &[u8], order: ByteOrder) -> (r: Result<CEbpfMetrics, SizeMismatch>)
        ensures
            r is Ok <==> bytes@.len() == 272,
            r is Ok ==> r->Ok_0.laid_out(bytes@, order),
    {
        if bytes.len() != 272 {
            return Err(SizeMismatch);
        }
        let mut counters: Vec<u64> = Vec::new();
        let mut i: usize = 0;
        while i < 34
            invariant
                i <= 34,
                bytes@.len() == 272,
                counters@.len() == i,
                forall|j: int|
                    0 <= j < i ==> word(bytes@.subrange(8 * j, 8 * j + 8), order)
                        == #[trigger] counters@[j],
            decreases 34 - i,
        {
            proof {
                reveal_with_fuel(pow256, 9);
            }
            counters.push(get_word(bytes, 8 * i, 8 * i + 8, order) as u64);
            i += 1;
        }
        Ok(CEbpfMetrics::of_counters(&counters))
    }
}

/// The bytes of the metrics belong to no other counters.
pub proof fn law_metrics_bytes(a: CEbpfMetrics, b: CEbpfMetrics, bytes: Seq<u8>, order: ByteOrder)
    requires
        a.laid_out(bytes, order),
        b.laid_out(bytes, order),
    ensures
        a.counters() == b.counters(),
{
    assert forall|i: int| 0 <= i < 34 implies a.counters()[i] == b.counters()[i] by {
        assert(word(bytes.subrange(8 * i, 8 * i + 8), order) == a.counters()[i]);
    }
    assert(a.counters() =~= b.counters());
}

/// The bytes of an event belong to no other event.
pub proof fn law_rtt_event_bytes(a: CTcpRttEvent, b: CTcpRttEvent, bytes: Seq<u8>, order: ByteOrder)
    requires
        a.laid_out(bytes, order),
        b.laid_out(bytes, order),
    ensures
        a == b,
{
    law_nlri_bytes(a.matched_nlri, b.matched_nlri, bytes.subrange(0, 20), order);
    assert(a.nexthop.octets =~= b.nexthop.octets);
}

/// Where the parts of a prefix stand: its length in the first four bytes, its
/// address in the sixteen behind them.
pub proof fn law_nlri_offsets(a: CNlri, bytes: Seq<u8>, order: ByteOrder)
    requires
        a.laid_out(bytes, order),
    ensures
        bytes.len() == 20,
        word(seq![bytes[0], bytes[1], bytes[2], bytes[3]], order) == a.prefix_len,
        forall|i: int| 0 <= i < 16 ==> #[trigger] a.address.octets@[i] == bytes[4 + i],
{
    assert(bytes.subrange(0, 4) =~= seq![bytes[0], bytes[1], bytes[2], bytes[3]]);
    assert forall|i: int| 0 <= i < 16 implies #[trigger] a.address.octets@[i] == bytes[4 + i] by {
        assert(bytes.subrange(4, 20)[i] == bytes[4 + i]);
    }
}

/// Where the parts of an entry stand: its prefix first, then the number of its
/// nexthops, four addresses and four weights.
pub proof fn law_fib_entry_offsets(a: CFibEntry, bytes: Seq<u8>, order: ByteOrder, i: int, j: int)
    requires
        a.laid_out(bytes, order),
        0 <= i < 4,
        0 <= j < 16,
    ensures
        bytes.len() == 96,
        word(seq![bytes[0], bytes[1], bytes[2], bytes[3]], order) == a.matched_nlri.prefix_len,
        a.matched_nlri.address.octets@[j] == bytes[4 + j],
        word(seq![bytes[20], bytes[21], bytes[22], bytes[23]], order) == a.nexthop_count,
        a.nexthops@[i].octets@[j] == bytes[24 + 16 * i + j],
        word(seq![bytes[88 + 2 * i], bytes[89 + 2 * i]], order) == a.weights@[i],
{
    law_nlri_offsets(a.matched_nlri, bytes.subrange(0, 20), order);
    assert(a.matched_nlri.address.octets@[j] == bytes.subrange(0, 20)[4 + j]);
    assert(bytes.subrange(20, 24) =~= seq![bytes[20], bytes[21], bytes[22], bytes[23]]);
    let part = bytes.subrange(24 + 16 * i, 40 + 16 * i);
    assert(part == a.nexthops@[i].octets@);
    assert(part[j] == bytes[24 + 16 * i + j]);
    assert(a.weights@[i] == a.weights@[i]);
    assert(bytes.subrange(88 + 2 * i, 90 + 2 * i) =~= seq![bytes[88 + 2 * i], bytes[89 + 2 * i]]);
}

/// Where the parts of a measurement stand: its prefix first, then its nexthop, four
/// bytes of padding, its time and the two round-trip times.
pub proof fn law_rtt_event_offsets(a: CTcpRttEvent, bytes: Seq<u8>, order: ByteOrder, j: int)
    requires
        a.laid_out(bytes, order),
        0 <= j < 16,
    ensures
        bytes.len() == 56,
        word(seq![bytes[0], bytes[1], bytes[2], bytes[3]], order) == a.matched_nlri.prefix_len,
        a.matched_nlri.address.octets@[j] == bytes[4 + j],
        a.nexthop.octets@[j] == bytes[20 + j],
        word(
            seq![
                bytes[40],
                bytes[41],
                bytes[42],
                bytes[43],
                bytes[44],
                bytes[45],
                bytes[46],
                bytes[47],
            ],
            order,
        ) == a.ts_ns,
        word(seq![bytes[48], bytes[49], bytes[50], bytes[51]], order) == a.srtt_us,
        word(seq![bytes[52], bytes[53], bytes[54], bytes[55]], order) == a.rtt_min,
{
    law_nlri_offsets(a.matched_nlri, bytes.subrange(0, 20), order);
    assert(a.matched_nlri.address.octets@[j] == bytes.subrange(0, 20)[4 + j]);
    assert(bytes.subrange(20, 36)[j] == bytes[20 + j]);
    assert(bytes.subrange(40, 48) =~= seq![
        bytes[40],
        bytes[41],
        bytes[42],
        bytes[43],
        bytes[44],
        bytes[45],
        bytes[46],
        bytes[47],
    ]);
    assert(bytes.subrange(48, 52) =~= seq![bytes[48], bytes[49], bytes[50], bytes[51]]);
    assert(bytes.subrange(52, 56) =~= seq![bytes[52], bytes[53], bytes[54], bytes[55]]);
}

/// Where the counters stand: one behind the other, eight bytes each.
pub proof fn law_metrics_offsets(a: CEbpfMetrics, bytes: Seq<u8>, order: ByteOrder, i: int)
    requires
        a.laid_out(bytes, order),
        0 <= i < 34,
    ensures
        bytes.len() == 272,
        word(
            seq![
                bytes[8 * i],
                bytes[8 * i + 1],
                bytes[8 * i + 2],
                bytes[8 * i + 3],
                bytes[8 * i + 4],
                bytes[8 * i + 5],
                bytes[8 * i + 6],
                bytes[8 * i + 7],
            ],
            order,
        ) == a.counters()[i],
{
    assert(bytes.subrange(8 * i, 8 * i + 8) =~= seq![
        bytes[8 * i],
        bytes[8 * i + 1],
        bytes[8 * i + 2],
        bytes[8 * i + 3],
        bytes[8 * i + 4],
        bytes[8 * i + 5],
        bytes[8 * i + 6],
        bytes[8 * i + 7],
    ]);
    assert(a.counters()[i] == a.counters()[i]);
}

} // verus!
