//! Entries of the forwarding table: up to four nexthops that share the traffic
//! of a prefix by weight.

use vstd::prelude::*;

use crate::bpf_abi::{
    addr_of_bits, law_addr_round_trip, law_nlri_round_trip, mapped, mapped_bits, mapped_len,
    net_of, CFibEntry, CNlri, NlriError, MAX_NEXTHOPS, WEIGHT_DENOMINATOR,
};
use crate::bytes::ByteOrder;
use crate::net::{addr_text, net_text, IpAddr, IpNet, Ipv4Addr, Ipv6Addr};
use crate::text::{decimal, decimal_text, joined};
use crate::wire::{law_fib_entry_bytes, law_nlri_bytes, SizeMismatch};

verus! {

broadcast use vstd::array::group_array_axioms;

/// A nexthop and its share of the traffic.
#[derive(Clone, Copy, Debug, PartialEq, Eq, Structural)]
pub struct WeightedNexthop {
    pub nexthop: IpAddr,
    pub weight: u16,
}

/// Why nexthops do not make a FIB entry.
#[derive(Clone, Copy, Debug, PartialEq, Eq, Structural)]
pub enum FibError {
    NoNexthop,
    TooManyNexthops,
    WeightSum,
    ZeroWeight,
}

impl FibError {
    /// What is said of it.
    pub open spec fn text(self) -> Seq<char> {
        match self {
            FibError::NoNexthop => "fib entry requires at least one nexthop"@,
            FibError::TooManyNexthops => "fib entry has too many nexthops"@,
            FibError::WeightSum => "fib entry weights must sum to "@ + decimal(
                WEIGHT_DENOMINATOR as nat,
            ),
            FibError::ZeroWeight => "fib entry active nexthops must have non-zero weight"@,
        }
    }

    /// The error as text.
    pub fn to_text(&self) -> (r: String)
        ensures
            r@ == self.text(),
    {
        match self {
            FibError::NoNexthop => "fib entry requires at least one nexthop".to_owned(),
            FibError::TooManyNexthops => "fib entry has too many nexthops".to_owned(),
            FibError::WeightSum => joined(
                "fib entry weights must sum to ",
                decimal_text(WEIGHT_DENOMINATOR as u64).as_str(),
            ),
            FibError::ZeroWeight => {
                "fib entry active nexthops must have non-zero weight".to_owned()
            },
        }
    }
}

/// The sum of the weights.
pub open spec fn weight_sum(list: Seq<WeightedNexthop>) -> nat
    decreases list.len(),
{
    if list.len() == 0 {
        0
    } else {
        weight_sum(list.drop_last()) + list.last().weight as nat
    }
}

/// Some weight is zero.
pub open spec fn some_zero(list: Seq<WeightedNexthop>) -> bool {
    exists|i: int| 0 <= i < list.len() && (#[trigger] list[i]).weight == 0
}

/// What is wrong with nexthops for a FIB entry, in the order in which it is
/// looked for.
pub open spec fn fib_error(list: Seq<WeightedNexthop>) -> Option<FibError> {
    if list.len() == 0 {
        Some(FibError::NoNexthop)
    } else if list.len() > MAX_NEXTHOPS {
        Some(FibError::TooManyNexthops)
    } else if weight_sum(list) != WEIGHT_DENOMINATOR {
        Some(FibError::WeightSum)
    } else if some_zero(list) {
        Some(FibError::ZeroWeight)
    } else {
        None
    }
}

/// What nexthops are ordered by: the 128 bits under which they are stored.
pub open spec fn key(w: WeightedNexthop) -> u128 {
    mapped_bits(w.nexthop)
}

/// `s` with `x` put behind the last element that does not come after it.
pub open spec fn insert_sorted(s: Seq<WeightedNexthop>, x: WeightedNexthop) -> Seq<WeightedNexthop>
    decreases s.len(),
{
    if s.len() == 0 || key(s.last()) <= key(x) {
        s.push(x)
    } else {
        insert_sorted(s.drop_last(), x).push(s.last())
    }
}

/// `list` in ascending order of the keys; where keys are equal, what came first
/// stays first.
pub open spec fn sorted(list: Seq<WeightedNexthop>) -> Seq<WeightedNexthop>
    decreases list.len(),
{
    if list.len() == 0 {
        list
    } else {
        insert_sorted(sorted(list.drop_last()), list.last())
    }
}

/// The keys ascend.
pub open spec fn ascending(s: Seq<WeightedNexthop>) -> bool {
    forall|i: int, j: int| 0 <= i <= j < s.len() ==> key(#[trigger] s[i]) <= key(#[trigger] s[j])
}

proof fn lemma_insert_sorted(s: Seq<WeightedNexthop>, x: WeightedNexthop)
    requires
        ascending(s),
    ensures
        ascending(insert_sorted(s, x)),
        insert_sorted(s, x).to_multiset() == s.to_multiset().insert(x),
        insert_sorted(s, x).len() == s.len() + 1,
        weight_sum(insert_sorted(s, x)) == weight_sum(s) + x.weight,
        some_zero(insert_sorted(s, x)) == (some_zero(s) || x.weight == 0),
        forall|i: int|
            0 <= i <= s.len() ==> key(#[trigger] insert_sorted(s, x)[i]) <= key(x) || (s.len() > 0
                && key(insert_sorted(s, x)[i]) <= key(s.last())),
    decreases s.len(),
{
    broadcast use vstd::seq_lib::group_to_multiset_ensures;

    let r = insert_sorted(s, x);
    if s.len() == 0 || key(s.last()) <= key(x) {
        assert(r.drop_last() =~= s);
        assert forall|i: int, j: int| 0 <= i <= j < r.len() implies key(#[trigger] r[i]) <= key(
            #[trigger] r[j],
        ) by {
            if i < s.len() && j == s.len() {
                assert(key(s[i]) <= key(s[s.len() - 1]));
            }
        }
        assert(some_zero(r) == (some_zero(s) || x.weight == 0)) by {
            if some_zero(s) {
                let i = choose|i: int| 0 <= i < s.len() && (#[trigger] s[i]).weight == 0;
                assert(r[i].weight == 0);
            }
            if x.weight == 0 {
                assert(r[s.len() as int].weight == 0);
            }
            if some_zero(r) {
                let i = choose|i: int| 0 <= i < r.len() && (#[trigger] r[i]).weight == 0;
                if i < s.len() {
                    assert(s[i].weight == 0);
                }
            }
        }
        assert forall|i: int| 0 <= i <= s.len() implies key(#[trigger] r[i]) <= key(x) by {
            if i < s.len() {
                assert(key(s[i]) <= key(s[s.len() - 1]));
            }
        }
    } else {
        let t = s.drop_last();
        let q = insert_sorted(t, x);
        assert(ascending(t)) by {
            assert forall|i: int, j: int| 0 <= i <= j < t.len() implies key(#[trigger] t[i])
                <= key(#[trigger] t[j]) by {
                assert(key(s[i]) <= key(s[j]));
            }
        }
        lemma_insert_sorted(t, x);
        assert(r.drop_last() =~= q);
        assert(s =~= t.push(s.last()));
        assert(r.to_multiset() =~= s.to_multiset().insert(x)) by {
            assert(s.to_multiset() =~= t.to_multiset().insert(s.last()));
            assert(r.to_multiset() =~= q.to_multiset().insert(s.last()));
        }
        assert forall|i: int, j: int| 0 <= i <= j < r.len() implies key(#[trigger] r[i]) <= key(
            #[trigger] r[j],
        ) by {
            if j < q.len() {
                assert(key(q[i]) <= key(q[j]));
            } else if i < q.len() {
                assert(r[i] == q[i]);
                if t.len() > 0 {
                    assert(key(s[t.len() - 1]) <= key(s[s.len() - 1]));
                }
            }
        }
        assert forall|i: int| 0 <= i <= s.len() implies key(#[trigger] r[i]) <= key(s.last()) by {
            assert(r[s.len() as int] == s.last());
            assert(key(r[i]) <= key(r[s.len() as int]));
        }
        assert(some_zero(r) == (some_zero(s) || x.weight == 0)) by {
            if some_zero(q) {
                let i = choose|i: int| 0 <= i < q.len() && (#[trigger] q[i]).weight == 0;
                assert(r[i].weight == 0);
            }
            if some_zero(s) {
                let i = choose|i: int| 0 <= i < s.len() && (#[trigger] s[i]).weight == 0;
                if i < t.len() {
                    assert(t[i].weight == 0);
                } else {
                    assert(r[s.len() as int].weight == 0);
                }
            }
            if some_zero(t) {
                let i = choose|i: int| 0 <= i < t.len() && (#[trigger] t[i]).weight == 0;
                assert(s[i].weight == 0);
            }
            if some_zero(r) {
                let i = choose|i: int| 0 <= i < r.len() && (#[trigger] r[i]).weight == 0;
                if i < q.len() {
                    assert(q[i].weight == 0);
                } else {
                    assert(s[s.len() - 1].weight == 0);
                }
            }
        }
    }
}

/// Sorting puts the keys in order and keeps the nexthops with their weights, so
/// also the sum of the weights and whether one is zero.
pub proof fn law_sorted(list: Seq<WeightedNexthop>)
    ensures
        ascending(sorted(list)),
        sorted(list).to_multiset() == list.to_multiset(),
        sorted(list).len() == list.len(),
        weight_sum(sorted(list)) == weight_sum(list),
        some_zero(sorted(list)) == some_zero(list),
    decreases list.len(),
{
    broadcast use vstd::seq_lib::group_to_multiset_ensures;

    if list.len() > 0 {
        let t = list.drop_last();
        law_sorted(t);
        lemma_insert_sorted(sorted(t), list.last());
        assert(list =~= t.push(list.last()));
        assert(some_zero(list) == (some_zero(t) || list.last().weight == 0)) by {
            if some_zero(t) {
                let i = choose|i: int| 0 <= i < t.len() && (#[trigger] t[i]).weight == 0;
                assert(list[i].weight == 0);
            }
            if list.last().weight == 0 {
                assert(list[list.len() - 1].weight == 0);
            }
            if some_zero(list) {
                let i = choose|i: int| 0 <= i < list.len() && (#[trigger] list[i]).weight == 0;
                if i < t.len() {
                    assert(t[i].weight == 0);
                }
            }
        }
    }
}

proof fn lemma_insert_keeps_nexthops(s: Seq<WeightedNexthop>, x: WeightedNexthop)
    ensures
        insert_sorted(s, x).map_values(|w: WeightedNexthop| w.nexthop).to_multiset() == s.map_values(
            |w: WeightedNexthop| w.nexthop,
        ).to_multiset().insert(x.nexthop),
    decreases s.len(),
{
    broadcast use vstd::seq_lib::group_to_multiset_ensures;

    let f = |w: WeightedNexthop| w.nexthop;
    let r = insert_sorted(s, x);
    if s.len() == 0 || key(s.last()) <= key(x) {
        assert(r.map_values(f) =~= s.map_values(f).push(x.nexthop));
    } else {
        let t = s.drop_last();
        lemma_insert_keeps_nexthops(t, x);
        assert(r.map_values(f) =~= insert_sorted(t, x).map_values(f).push(s.last().nexthop));
        assert(s.map_values(f) =~= t.map_values(f).push(s.last().nexthop));
        assert(r.map_values(f).to_multiset() =~= s.map_values(f).to_multiset().insert(x.nexthop));
    }
}

/// Sorting neither drops a nexthop nor adds one: each occurs as often as before.
pub proof fn law_sorted_keeps_nexthops(list: Seq<WeightedNexthop>)
    ensures
        sorted(list).map_values(|w: WeightedNexthop| w.nexthop).to_multiset() == list.map_values(
            |w: WeightedNexthop| w.nexthop,
        ).to_multiset(),
    decreases list.len(),
{
    broadcast use vstd::seq_lib::group_to_multiset_ensures;

    let f = |w: WeightedNexthop| w.nexthop;
    if list.len() > 0 {
        let t = list.drop_last();
        law_sorted_keeps_nexthops(t);
        lemma_insert_keeps_nexthops(sorted(t), list.last());
        assert(list.map_values(f) =~= t.map_values(f).push(list.last().nexthop));
    }
}

/// Where `x` goes: behind what does not come after it, before what does.
proof fn lemma_insert_position(s: Seq<WeightedNexthop>, x: WeightedNexthop, p: int)
    requires
        0 <= p <= s.len(),
        p > 0 ==> key(s[p - 1]) <= key(x),
        forall|j: int| p <= j < s.len() ==> key(#[trigger] s[j]) > key(x),
    ensures
        insert_sorted(s, x) == s.insert(p, x),
    decreases s.len(),
{
    if p < s.len() {
        let t = s.drop_last();
        assert(key(s[s.len() - 1]) > key(x));
        assert forall|j: int| p <= j < t.len() implies key(#[trigger] t[j]) > key(x) by {
            assert(t[j] == s[j]);
        }
        lemma_insert_position(t, x, p);
        assert(s.insert(p, x) =~= t.insert(p, x).push(s.last()));
    } else {
        assert(s.insert(p, x) =~= s.push(x));
    }
}

/// Sorts nexthops by the bits under which they are stored.
fn sort_nexthops(list: &Vec<WeightedNexthop>) -> (r: Vec<WeightedNexthop>)
    ensures
        r@ == sorted(list@),
{
    let mut out: Vec<WeightedNexthop> = Vec::new();
    let mut i: usize = 0;
    assert(list@.take(0) =~= Seq::empty());
    while i < list.len()
        invariant
            i <= list@.len(),
            out@ == sorted(list@.take(i as int)),
        decreases list@.len() - i,
    {
        let x = list[i];
        let k = mapped(x.nexthop);
        let mut p: usize = out.len();
        while p > 0 && mapped(out[p - 1].nexthop) > k
            invariant
                p <= out@.len(),
                k == key(x),
                forall|j: int| p <= j < out@.len() ==> key(#[trigger] out@[j]) > key(x),
            decreases p,
        {
            p -= 1;
        }
        proof {
            lemma_insert_position(out@, x, p as int);
            assert(list@.take(i + 1).drop_last() =~= list@.take(i as int));
        }
        out.insert(p, x);
        i += 1;
    }
    assert(list@.take(list@.len() as int) =~= list@);
    out
}

/// The nexthops of a prefix, ready for the forwarding table.
#[derive(Debug, PartialEq, Eq)]
pub struct FibEntry {
    nexthop_count: usize,
    nexthops: [IpAddr; 4],
    weights: [u16; 4],
}

impl View for FibEntry {
    type V = Seq<WeightedNexthop>;

    closed spec fn view(&self) -> Seq<WeightedNexthop> {
        Seq::new(
            self.nexthop_count as nat,
            |i: int| WeightedNexthop { nexthop: self.nexthops@[i], weight: self.weights@[i] },
        )
    }
}

/// Nexthops as they stand in a FIB entry: between one and four, in order, each
/// with some traffic, all traffic shared out.
pub open spec fn valid_entry(s: Seq<WeightedNexthop>) -> bool {
    fib_error(s) is None && ascending(s)
}

impl Clone for FibEntry {
    fn clone(&self) -> (r: FibEntry)
        ensures
            r@ == self@,
    {
        proof {
            use_type_invariant(self);
        }
        FibEntry {
            nexthop_count: self.nexthop_count,
            nexthops: self.nexthops,
            weights: self.weights,
        }
    }
}

impl FibEntry {
    #[verifier::type_invariant]
    spec fn inv(self) -> bool {
        &&& self.nexthop_count <= 4
        &&& valid_entry(self@)
        &&& forall|i: int|
            self.nexthop_count <= i < 4 ==> #[trigger] self.nexthops@[i] == IpAddr::V6(
                Ipv6Addr { bits: 0 },
            ) && self.weights@[i] == 0
    }

    /// A FIB entry for the given nexthops.
    pub fn new(nexthops: Vec<WeightedNexthop>) -> (r: Result<FibEntry, FibError>)
        ensures
            match r {
                Ok(entry) => fib_error(nexthops@) is None && entry@ == sorted(nexthops@),
                Err(e) => fib_error(nexthops@) == Some(e),
            },
    {
        if nexthops.len() == 0 {
            return Err(FibError::NoNexthop);
        }
        if nexthops.len() > MAX_NEXTHOPS {
            return Err(FibError::TooManyNexthops);
        }
        let mut sum: u32 = 0;
        let mut zero: bool = false;
        let mut i: usize = 0;
        assert(nexthops@.take(0) =~= Seq::empty());
        while i < nexthops.len()
            invariant
                i <= nexthops@.len() <= 4,
                sum == weight_sum(nexthops@.take(i as int)),
                sum <= i * 0xffff,
                zero == (exists|j: int| 0 <= j < i && (#[trigger] nexthops@[j]).weight == 0),
            decreases nexthops@.len() - i,
        {
            assert(nexthops@.take(i + 1).drop_last() =~= nexthops@.take(i as int));
            sum += nexthops[i].weight as u32;
            zero = zero || nexthops[i].weight == 0;
            i += 1;
        }
        assert(nexthops@.take(nexthops@.len() as int) =~= nexthops@);
        if sum != WEIGHT_DENOMINATOR as u32 {
            return Err(FibError::WeightSum);
        }
        if zero {
            return Err(FibError::ZeroWeight);
        }
        let list = sort_nexthops(&nexthops);
        proof {
            law_sorted(nexthops@);
        }
        let unused = IpAddr::V6(Ipv6Addr { bits: 0 });
        let mut packed_nexthops = [unused, unused, unused, unused];
        let mut packed_weights: [u16; 4] = [0, 0, 0, 0];
        let mut n: usize = 0;
        while n < list.len()
            invariant
                n <= list@.len() <= 4,
                forall|j: int| 0 <= j < n ==> #[trigger] packed_nexthops@[j] == list@[j].nexthop,
                forall|j: int| 0 <= j < n ==> #[trigger] packed_weights@[j] == list@[j].weight,
                forall|j: int|
                    n <= j < 4 ==> #[trigger] packed_nexthops@[j] == IpAddr::V6(
                        Ipv6Addr { bits: 0 },
                    ),
                forall|j: int| n <= j < 4 ==> #[trigger] packed_weights@[j] == 0,
            decreases list@.len() - n,
        {
            packed_nexthops[n] = list[n].nexthop;
            packed_weights[n] = list[n].weight;
            n += 1;
        }
        proof {
            assert(Seq::new(
                list@.len(),
                |i: int|
                    WeightedNexthop {
                        nexthop: packed_nexthops@[i],
                        weight: packed_weights@[i],
                    },
            ) =~= list@);
        }
        Ok(
            FibEntry {
                nexthop_count: list.len(),
                nexthops: packed_nexthops,
                weights: packed_weights,
            },
        )
    }

    /// The nexthops with their weights, in order.
    pub fn nexthops(&self) -> (r: Vec<WeightedNexthop>)
        ensures
            r@ == self@,
            valid_entry(r@),
    {
        proof {
            use_type_invariant(self);
        }
        let mut out: Vec<WeightedNexthop> = Vec::new();
        let mut i: usize = 0;
        while i < self.nexthop_count
            invariant
                i <= self.nexthop_count <= 4,
                out@ == self@.take(i as int),
            decreases self.nexthop_count - i,
        {
            out.push(WeightedNexthop { nexthop: self.nexthops[i], weight: self.weights[i] });
            i += 1;
            assert(out@ =~= self@.take(i as int));
        }
        assert(self@.take(self@.len() as int) =~= self@);
        out
    }

    /// The stored form of the entry for a network.
    pub fn stored(&self, nlri: IpNet) -> (r: CFibEntry)
        ensures
            stores(r, nlri, self@),
    {
        proof {
            use_type_invariant(self);
        }
        let r = CFibEntry::new(nlri, self.nexthop_count, &self.nexthops, &self.weights);
        assert forall|i: int| 0 <= i < 4 implies slot_stores(r, self@, i) by {
            assert(r.nexthops@[i].bits() == mapped_bits(self.nexthops@[i]));
        }
        r
    }
}

/// Slot `i` of a stored entry holds the `i`-th nexthop, and zeros behind the
/// last one.
pub open spec fn slot_stores(c: CFibEntry, s: Seq<WeightedNexthop>, i: int) -> bool {
    if i < s.len() {
        c.nexthops@[i].bits() == mapped_bits(s[i].nexthop) && c.weights@[i] == s[i].weight
    } else {
        c.nexthops@[i].bits() == 0 && c.weights@[i] == 0
    }
}

/// `c` is the stored form of the nexthops `s` for `nlri`.
pub open spec fn stores(c: CFibEntry, nlri: IpNet, s: Seq<WeightedNexthop>) -> bool {
    &&& c.matched_nlri.prefix_len == mapped_len(nlri)
    &&& c.matched_nlri.address.bits() == mapped_bits(nlri.spec_addr())
    &&& c.nexthop_count == s.len()
    &&& s.len() <= 4
    &&& forall|i: int| 0 <= i < 4 ==> #[trigger] slot_stores(c, s, i)
}

/// A key and a value of the forwarding table's map.
#[derive(Clone, Debug)]
pub struct FibWrite {
    pub key: Vec<u8>,
    pub value: Vec<u8>,
}

/// The weight of one nexthop of a prefix, as it is reported.
#[derive(Clone, Debug)]
pub struct GaugeSample {
    pub nlri: String,
    pub nexthop: String,
    pub value: u64,
}

/// A [`GaugeSample`] over sequences.
#[verifier::ext_equal]
pub struct GaugeView {
    pub nlri: Seq<char>,
    pub nexthop: Seq<char>,
    pub value: u64,
}

impl View for GaugeSample {
    type V = GaugeView;

    open spec fn view(&self) -> GaugeView {
        GaugeView { nlri: self.nlri@, nexthop: self.nexthop@, value: self.value }
    }
}

/// The views of samples.
pub open spec fn gauge_views(list: Seq<GaugeSample>) -> Seq<GaugeView> {
    list.map_values(|g: GaugeSample| g@)
}

/// The bytes are not a key of the forwarding table.
#[derive(Clone, Copy, Debug, PartialEq, Eq, Structural)]
pub enum FibKeyError {
    Size(SizeMismatch),
    Nlri(NlriError),
}

/// How many nexthops of a stored entry are read: never more than it has slots.
pub open spec fn active_slots(c: CFibEntry) -> nat {
    if c.nexthop_count < MAX_NEXTHOPS {
        c.nexthop_count as nat
    } else {
        MAX_NEXTHOPS as nat
    }
}

/// What is reported of a stored entry.
pub open spec fn stored_gauges(c: CFibEntry, nlri: IpNet) -> Seq<GaugeView> {
    Seq::new(
        active_slots(c),
        |i: int|
            GaugeView {
                nlri: net_text(nlri),
                nexthop: addr_text(addr_of_bits(c.nexthops@[i].bits() as u128)),
                value: c.weights@[i] as u64,
            },
    )
}

/// The forwarding table's map, whose numbers are stored in the given order.
#[derive(Clone, Copy, Debug, PartialEq, Eq, Structural)]
pub struct Fib {
    pub order: ByteOrder,
}

impl Fib {
    /// What is written to the map for the nexthops of a prefix.
    pub fn insert(&self, nlri: IpNet, fib_entry: &FibEntry) -> (r: FibWrite)
        ensures
            exists|k: CNlri|
                #[trigger] k.laid_out(r.key@, self.order) && k.prefix_len == mapped_len(nlri)
                    && k.address.bits() == mapped_bits(nlri.spec_addr()),
            exists|c: CFibEntry|
                #[trigger] c.laid_out(r.value@, self.order) && stores(c, nlri, fib_entry@),
    {
        let cnlri = CNlri::from(nlri);
        let cfib_entry = fib_entry.stored(nlri);
        let key = cnlri.to_bytes(self.order);
        let value = cfib_entry.to_bytes(self.order);
        let r = FibWrite { key, value };
        assert(cnlri.laid_out(r.key@, self.order));
        assert(cfib_entry.laid_out(r.value@, self.order));
        r
    }

    /// The key that is deleted from the map for a prefix.
    pub fn delete(&self, nlri: IpNet) -> (r: Vec<u8>)
        ensures
            exists|k: CNlri|
                #[trigger] k.laid_out(r@, self.order) && k.prefix_len == mapped_len(nlri)
                    && k.address.bits() == mapped_bits(nlri.spec_addr()),
    {
        let cnlri = CNlri::from(nlri);
        let key = cnlri.to_bytes(self.order);
        assert(cnlri.laid_out(key@, self.order));
        key
    }

    /// The prefix that a key of the map stands for.
    pub fn read_key(&self, key: &[u8]) -> (r: Result<IpNet, FibKeyError>)
        ensures
            r == key_of(key@, self.order),
            key@.len() != 20 <==> r is Err && r->Err_0 is Size,
            forall|k: CNlri| #[trigger]
                k.laid_out(key@, self.order) ==> match r {
                    Ok(net) => net_of(k.prefix_len, k.address.bits() as u128) == Ok::<
                        IpNet,
                        NlriError,
                    >(net),
                    Err(e) => e is Nlri && net_of(k.prefix_len, k.address.bits() as u128) == Err::<
                        IpNet,
                        NlriError,
                    >(e->Nlri_0),
                },
    {
        match CNlri::from_bytes(key, self.order) {
            Ok(cnlri) => {
                proof {
                    assert forall|k: CNlri| #[trigger] k.laid_out(key@, self.order) implies k
                        == cnlri by {
                        crate::wire::law_nlri_bytes(k, cnlri, key@, self.order);
                    }
                    assert((choose|k: CNlri| k.laid_out(key@, self.order)) == cnlri);
                }
                match IpNet::try_from(cnlri) {
                    Ok(net) => Ok(net),
                    Err(e) => Err(FibKeyError::Nlri(e)),
                }
            },
            Err(e) => Err(FibKeyError::Size(e)),
        }
    }

    /// What is reported of a value of the map, for the prefix of its key.
    pub fn read_value(&self, nlri: IpNet, value: &[u8]) -> (r: Result<
        Vec<GaugeSample>,
        SizeMismatch,
    >)
        ensures
            r is Ok <==> value@.len() == 96,
            r is Ok ==> forall|c: CFibEntry| #[trigger]
                c.laid_out(value@, self.order) ==> gauge_views(r->Ok_0@) == stored_gauges(c, nlri),
            r is Ok ==> gauge_views(r->Ok_0@) == stored_gauges(
                choose|c: CFibEntry| c.laid_out(value@, self.order),
                nlri,
            ),
    {
        let cfib = match CFibEntry::from_bytes(value, self.order) {
            Ok(cfib) => cfib,
            Err(e) => {
                return Err(e);
            },
        };
        let count: usize = if cfib.nexthop_count < MAX_NEXTHOPS as u32 {
            cfib.nexthop_count as usize
        } else {
            MAX_NEXTHOPS
        };
        let mut out: Vec<GaugeSample> = Vec::new();
        let mut i: usize = 0;
        while i < count
            invariant
                i <= count == active_slots(cfib) <= 4,
                gauge_views(out@) == stored_gauges(cfib, nlri).take(i as int),
            decreases count - i,
        {
            let ghost before = out@;
            let sample = GaugeSample {
                nlri: nlri.to_text(),
                nexthop: IpAddr::from(cfib.nexthops[i]).to_text(),
                value: cfib.weights[i] as u64,
            };
            out.push(sample);
            i += 1;
            assert(gauge_views(out@) =~= gauge_views(before).push(sample@));
            assert(gauge_views(out@) =~= stored_gauges(cfib, nlri).take(i as int));
        }
        proof {
            assert(stored_gauges(cfib, nlri).take(count as int) =~= stored_gauges(cfib, nlri));
            assert forall|c: CFibEntry| #[trigger] c.laid_out(value@, self.order) implies c
                == cfib by {
                crate::wire::law_fib_entry_bytes(c, cfib, value@, self.order);
            }
            assert((choose|c: CFibEntry| c.laid_out(value@, self.order)) == cfib);
        }
        Ok(out)
    }
}

/// What a lookup in the forwarding table's map gave.
#[derive(Clone, Debug)]
pub enum Lookup {
    Found(Vec<u8>),
    /// The entry is gone.
    Missing,
    /// The lookup failed, and why.
    Failed(String),
}

/// A key of the forwarding table's map, and what was found under it.
#[derive(Clone, Debug)]
pub struct FibItem {
    pub key: Vec<u8>,
    pub lookup: Lookup,
}

/// Why an entry of the forwarding table's map is left out of the report.
#[derive(Clone, Debug)]
pub enum FibWarning {
    Key(FibKeyError),
    Lookup(String),
    Value(SizeMismatch),
}

/// A [`FibWarning`] over sequences.
#[verifier::ext_equal]
pub enum WarningView {
    Key(FibKeyError),
    Lookup(Seq<char>),
    Value(SizeMismatch),
}

impl View for FibWarning {
    type V = WarningView;

    open spec fn view(&self) -> WarningView {
        match self {
            FibWarning::Key(e) => WarningView::Key(*e),
            FibWarning::Lookup(e) => WarningView::Lookup(e@),
            FibWarning::Value(e) => WarningView::Value(*e),
        }
    }
}

/// What is reported of the forwarding table, and what was left out of it.
#[derive(Clone, Debug)]
pub struct FibReport {
    pub samples: Vec<GaugeSample>,
    pub warnings: Vec<FibWarning>,
}

/// The prefix that the bytes of a key stand for.
pub open spec fn key_of(key: Seq<u8>, order: ByteOrder) -> Result<IpNet, FibKeyError> {
    if key.len() != 20 {
        Err(FibKeyError::Size(SizeMismatch))
    } else {
        let k = choose|k: CNlri| k.laid_out(key, order);
        match net_of(k.prefix_len, k.address.bits() as u128) {
            Ok(net) => Ok(net),
            Err(e) => Err(FibKeyError::Nlri(e)),
        }
    }
}

/// What is reported of one key and what was found under it, or why nothing is.
pub open spec fn item_report(item: FibItem, order: ByteOrder) -> Result<
    Seq<GaugeView>,
    WarningView,
> {
    match key_of(item.key@, order) {
        Ok(nlri) => match item.lookup {
            Lookup::Found(value) => if value@.len() != 96 {
                Err(WarningView::Value(SizeMismatch))
            } else {
                Ok(stored_gauges(choose|c: CFibEntry| c.laid_out(value@, order), nlri))
            },
            Lookup::Missing => Ok(Seq::empty()),
            Lookup::Failed(e) => Err(WarningView::Lookup(e@)),
        },
        Err(e) => Err(WarningView::Key(e)),
    }
}

/// What is reported of a list of keys, in their order.
pub open spec fn reported(items: Seq<FibItem>, order: ByteOrder) -> Seq<GaugeView>
    decreases items.len(),
{
    if items.len() == 0 {
        Seq::empty()
    } else {
        reported(items.drop_last(), order) + match item_report(items.last(), order) {
            Ok(gauges) => gauges,
            Err(_) => Seq::empty(),
        }
    }
}

/// Why keys of a list are left out of the report, in their order.
pub open spec fn left_out(items: Seq<FibItem>, order: ByteOrder) -> Seq<WarningView>
    decreases items.len(),
{
    if items.len() == 0 {
        Seq::empty()
    } else {
        left_out(items.drop_last(), order) + match item_report(items.last(), order) {
            Ok(_) => Seq::empty(),
            Err(e) => seq![e],
        }
    }
}

impl Fib {
    /// What is reported of one key and what was found under it.
    fn report(&self, item: &FibItem) -> (r: Result<Vec<GaugeSample>, FibWarning>)
        ensures
            match r {
                Ok(samples) => item_report(*item, self.order) == Ok::<Seq<GaugeView>, WarningView>(
                    gauge_views(samples@),
                ),
                Err(e) => item_report(*item, self.order) == Err::<Seq<GaugeView>, WarningView>(e@),
            },
    {
        let nlri = match self.read_key(item.key.as_slice()) {
            Ok(nlri) => nlri,
            Err(e) => {
                return Err(FibWarning::Key(e));
            },
        };
        match &item.lookup {
            Lookup::Found(value) => match self.read_value(nlri, value.as_slice()) {
                Ok(samples) => Ok(samples),
                Err(e) => Err(FibWarning::Value(e)),
            },
            Lookup::Missing => {
                let samples: Vec<GaugeSample> = Vec::new();
                assert(gauge_views(samples@) =~= Seq::empty());
                Ok(samples)
            },
            Lookup::Failed(e) => Err(FibWarning::Lookup(e.clone())),
        }
    }

    /// What is reported of the forwarding table, given its keys and what was found
    /// under them.
    pub fn encode(&self, items: &Vec<FibItem>) -> (r: FibReport)
        ensures
            gauge_views(r.samples@) == reported(items@, self.order),
            r.warnings@.map_values(|w: FibWarning| w@) == left_out(items@, self.order),
    {
        let mut samples: Vec<GaugeSample> = Vec::new();
        let mut warnings: Vec<FibWarning> = Vec::new();
        let mut i: usize = 0;
        proof {
            assert(gauge_views(samples@) =~= Seq::empty());
            assert(warnings@.map_values(|w: FibWarning| w@) =~= Seq::empty());
            assert(items@.take(0) =~= Seq::empty());
        }
        while i < items.len()
            invariant
                i <= items@.len(),
                gauge_views(samples@) == reported(items@.take(i as int), self.order),
                warnings@.map_values(|w: FibWarning| w@) == left_out(
                    items@.take(i as int),
                    self.order,
                ),
            decreases items@.len() - i,
        {
            let ghost samples_before = samples@;
            let ghost warnings_before = warnings@;
            proof {
                assert(items@.take(i + 1).drop_last() =~= items@.take(i as int));
                assert(items@.take(i + 1).last() == items@[i as int]);
            }
            match self.report(&items[i]) {
                Ok(mut list) => {
                    let ghost added = list@;
                    samples.append(&mut list);
                    assert(gauge_views(samples@) =~= gauge_views(samples_before) + gauge_views(
                        added,
                    ));
                    assert(left_out(items@.take(i + 1), self.order) =~= left_out(
                        items@.take(i as int),
                        self.order,
                    ));
                },
                Err(e) => {
                    warnings.push(e);
                    assert(warnings@.map_values(|w: FibWarning| w@)
                        =~= warnings_before.map_values(|w: FibWarning| w@) + seq![e@]);
                    assert(reported(items@.take(i + 1), self.order) =~= reported(
                        items@.take(i as int),
                        self.order,
                    ));
                },
            }
            i += 1;
        }
        assert(items@.take(items@.len() as int) =~= items@);
        FibReport { samples, warnings }
    }
}

/// The reported weights of nexthops for a prefix.
pub open spec fn entry_gauges(s: Seq<WeightedNexthop>, nlri: IpNet) -> Seq<GaugeView> {
    s.map_values(
        |w: WeightedNexthop|
            GaugeView {
                nlri: net_text(nlri),
                nexthop: addr_text(w.nexthop),
                value: w.weight as u64,
            },
    )
}

/// What is reported of a stored entry is what was stored: the nexthops of the
/// entry with their weights, provided that none of them is an IPv6 address that
/// is itself IPv4-mapped.
pub proof fn law_report_shows_entry(c: CFibEntry, nlri: IpNet, s: Seq<WeightedNexthop>)
    requires
        stores(c, nlri, s),
        forall|i: int|
            0 <= i < s.len() ==> ((#[trigger] s[i]).nexthop is V6
                ==> s[i].nexthop->V6_0.v4_mapped() is None),
    ensures
        stored_gauges(c, nlri) == entry_gauges(s, nlri),
{
    assert forall|i: int| 0 <= i < s.len() implies stored_gauges(c, nlri)[i] == entry_gauges(
        s,
        nlri,
    )[i] by {
        assert(slot_stores(c, s, i));
        law_addr_round_trip(s[i].nexthop);
    }
    assert(stored_gauges(c, nlri) =~= entry_gauges(s, nlri));
}

/// No two nexthops are stored under the same bits.
pub open spec fn distinct_nexthops(s: Seq<WeightedNexthop>) -> bool {
    forall|i: int, j: int| 0 <= i < j < s.len() ==> key(#[trigger] s[i]) != key(#[trigger] s[j])
}

proof fn lemma_ascending_unique(s: Seq<WeightedNexthop>, t: Seq<WeightedNexthop>)
    requires
        ascending(s),
        ascending(t),
        distinct_nexthops(s),
        s.to_multiset() == t.to_multiset(),
    ensures
        s == t,
    decreases s.len(),
{
    broadcast use vstd::seq_lib::group_to_multiset_ensures;

    assert(s.len() == s.to_multiset().len() && t.len() == t.to_multiset().len());
    if s.len() > 0 {
        let (a, b) = (s.last(), t.last());
        assert(t.contains(b) && s.contains(a)) by {
            assert(t[t.len() - 1] == b && s[s.len() - 1] == a);
        }
        assert(s.to_multiset().count(b) > 0 && t.to_multiset().count(a) > 0);
        assert(s.contains(b) && t.contains(a));
        let i = choose|i: int| 0 <= i < s.len() && s[i] == b;
        let j = choose|j: int| 0 <= j < t.len() && t[j] == a;
        assert(key(s[i]) <= key(s[s.len() - 1]));
        assert(key(t[j]) <= key(t[t.len() - 1]));
        if i < s.len() - 1 {
            assert(key(s[i]) != key(s[s.len() - 1]));
        }
        assert(a == b);
        let (x, y) = (s.drop_last(), t.drop_last());
        assert(s =~= x.push(a));
        assert(t =~= y.push(a));
        assert(x.to_multiset() =~= y.to_multiset()) by {
            assert(s.to_multiset() =~= x.to_multiset().insert(a));
            assert(t.to_multiset() =~= y.to_multiset().insert(a));
            assert(x.to_multiset() =~= x.to_multiset().insert(a).remove(a));
            assert(y.to_multiset() =~= y.to_multiset().insert(a).remove(a));
        }
        assert forall|p: int, q: int| 0 <= p <= q < x.len() implies key(#[trigger] x[p]) <= key(
            #[trigger] x[q],
        ) by {
            assert(key(s[p]) <= key(s[q]));
        }
        assert forall|p: int, q: int| 0 <= p <= q < y.len() implies key(#[trigger] y[p]) <= key(
            #[trigger] y[q],
        ) by {
            assert(key(t[p]) <= key(t[q]));
        }
        assert forall|p: int, q: int| 0 <= p < q < x.len() implies key(#[trigger] x[p]) != key(
            #[trigger] x[q],
        ) by {
            assert(key(s[p]) != key(s[q]));
        }
        lemma_ascending_unique(x, y);
    } else {
        assert(s =~= t);
    }
}

/// Routing is predictable: the order in which nexthops are given does not matter
/// to the entry, provided that no two of them are stored under the same bits.
pub proof fn law_order_does_not_matter(a: Seq<WeightedNexthop>, b: Seq<WeightedNexthop>)
    requires
        a.to_multiset() == b.to_multiset(),
        distinct_nexthops(a),
    ensures
        sorted(a) == sorted(b),
{
    law_sorted(a);
    law_sorted(b);
    lemma_sorted_distinct(a);
    lemma_ascending_unique(sorted(a), sorted(b));
}

proof fn lemma_insert_distinct(s: Seq<WeightedNexthop>, x: WeightedNexthop)
    requires
        distinct_nexthops(s),
        forall|i: int| 0 <= i < s.len() ==> key(#[trigger] s[i]) != key(x),
    ensures
        distinct_nexthops(insert_sorted(s, x)),
        insert_sorted(s, x).len() == s.len() + 1,
        forall|i: int|
            0 <= i <= s.len() ==> key(#[trigger] insert_sorted(s, x)[i]) == key(x) || exists|j: int|
                0 <= j < s.len() && key(#[trigger] s[j]) == key(insert_sorted(s, x)[i]),
    decreases s.len(),
{
    let r = insert_sorted(s, x);
    if s.len() == 0 || key(s.last()) <= key(x) {
        assert forall|i: int| 0 <= i <= s.len() implies key(#[trigger] r[i]) == key(x) || exists|
            j: int,
        |
            0 <= j < s.len() && key(#[trigger] s[j]) == key(r[i]) by {
            if i < s.len() {
                assert(key(s[i]) == key(r[i]));
            }
        }
        assert forall|i: int, j: int| 0 <= i < j < r.len() implies key(#[trigger] r[i]) != key(
            #[trigger] r[j],
        ) by {
            if j < s.len() {
                assert(key(s[i]) != key(s[j]));
            } else {
                assert(key(s[i]) != key(x));
            }
        }
    } else {
        let t = s.drop_last();
        let q = insert_sorted(t, x);
        let l = s.len() - 1;
        assert forall|i: int, j: int| 0 <= i < j < t.len() implies key(#[trigger] t[i]) != key(
            #[trigger] t[j],
        ) by {
            assert(key(s[i]) != key(s[j]));
        }
        assert forall|i: int| 0 <= i < t.len() implies key(#[trigger] t[i]) != key(x) by {
            assert(key(s[i]) != key(x));
        }
        lemma_insert_distinct(t, x);
        assert forall|i: int| 0 <= i <= s.len() implies key(#[trigger] r[i]) == key(x) || exists|
            j: int,
        |
            0 <= j < s.len() && key(#[trigger] s[j]) == key(r[i]) by {
            if i < q.len() {
                assert(r[i] == q[i]);
                if key(q[i]) != key(x) {
                    let j = choose|j: int|
                        0 <= j < t.len() && key(#[trigger] t[j]) == key(q[i]);
                    assert(key(s[j]) == key(r[i]));
                }
            } else {
                assert(key(s[l]) == key(r[i]));
            }
        }
        assert forall|i: int, j: int| 0 <= i < j < r.len() implies key(#[trigger] r[i]) != key(
            #[trigger] r[j],
        ) by {
            assert(r[i] == q[i]);
            if j < q.len() {
                assert(key(q[i]) != key(q[j]));
            } else {
                assert(r[j] == s[l]);
                assert(key(s[l]) != key(x));
                if key(q[i]) != key(x) {
                    let k = choose|k: int|
                        0 <= k < t.len() && key(#[trigger] t[k]) == key(q[i]);
                    assert(key(s[k]) != key(s[l]));
                }
            }
        }
    }
}

proof fn lemma_sorted_distinct(list: Seq<WeightedNexthop>)
    requires
        distinct_nexthops(list),
    ensures
        distinct_nexthops(sorted(list)),
        sorted(list).len() == list.len(),
        forall|i: int|
            0 <= i < list.len() ==> exists|j: int|
                0 <= j < list.len() && key(#[trigger] list[j]) == key(#[trigger] sorted(list)[i]),
    decreases list.len(),
{
    if list.len() > 0 {
        let t = list.drop_last();
        let st = sorted(t);
        let n = list.len() - 1;
        assert forall|i: int, j: int| 0 <= i < j < t.len() implies key(#[trigger] t[i]) != key(
            #[trigger] t[j],
        ) by {
            assert(key(list[i]) != key(list[j]));
        }
        lemma_sorted_distinct(t);
        assert forall|i: int| 0 <= i < st.len() implies key(#[trigger] st[i]) != key(list[n]) by {
            let j = choose|j: int| 0 <= j < t.len() && key(#[trigger] t[j]) == key(st[i]);
            assert(key(list[j]) != key(list[n]));
        }
        lemma_insert_distinct(st, list[n]);
        let r = sorted(list);
        assert forall|i: int| 0 <= i < list.len() implies exists|j: int|
            0 <= j < list.len() && key(#[trigger] list[j]) == key(#[trigger] r[i]) by {
            if key(r[i]) == key(list[n]) {
                assert(key(list[n]) == key(r[i]));
            } else {
                let k = choose|k: int| 0 <= k < st.len() && key(#[trigger] st[k]) == key(r[i]);
                let j = choose|j: int| 0 <= j < t.len() && key(#[trigger] t[j]) == key(st[k]);
                assert(key(list[j]) == key(r[i]));
            }
        }
    }
}

/// The name under which the weights of the forwarding table are reported.
pub fn weight_gauge_name() -> (r: &'static str)
    ensures
        r@ == "erez_steering_nexthop_weight"@,
{
    "erez_steering_nexthop_weight"
}

/// The text that explains the weights of the forwarding table.
pub fn weight_gauge_help() -> (r: &'static str)
    ensures
        r@ == "Current weight assigned to each nexthop in the steering FIB"@,
{
    "Current weight assigned to each nexthop in the steering FIB"
}

/// What is written to the map for a prefix reads back: the key stands for the
/// prefix, and what is reported of the value are the nexthops of the entry with
/// their weights, provided that neither the prefix nor any of the nexthops is an
/// IPv6 address that is itself IPv4-mapped.
pub proof fn law_fib_reads_back(
    k: CNlri,
    c: CFibEntry,
    nlri: IpNet,
    s: Seq<WeightedNexthop>,
)
    requires
        nlri.wf(),
        nlri is V6 ==> nlri->V6_0.addr.v4_mapped() is None,
        k.prefix_len == mapped_len(nlri),
        k.address.bits() == mapped_bits(nlri.spec_addr()),
        stores(c, nlri, s),
        forall|i: int|
            0 <= i < s.len() ==> ((#[trigger] s[i]).nexthop is V6
                ==> s[i].nexthop->V6_0.v4_mapped() is None),
    ensures
        net_of(k.prefix_len, k.address.bits() as u128) == Ok::<IpNet, NlriError>(nlri),
        stored_gauges(c, nlri) == entry_gauges(s, nlri),
{
    law_nlri_round_trip(nlri);
    law_report_shows_entry(c, nlri, s);
}

/// What is written to the map for the nexthops of a prefix is what is reported once
/// it is found there again, under the conditions of [`law_fib_reads_back`].
pub proof fn law_written_is_reported(
    item: FibItem,
    value: Vec<u8>,
    k: CNlri,
    c: CFibEntry,
    nlri: IpNet,
    s: Seq<WeightedNexthop>,
    order: ByteOrder,
)
    requires
        item.lookup == Lookup::Found(value),
        k.laid_out(item.key@, order),
        c.laid_out(value@, order),
        nlri.wf(),
        nlri is V6 ==> nlri->V6_0.addr.v4_mapped() is None,
        k.prefix_len == mapped_len(nlri),
        k.address.bits() == mapped_bits(nlri.spec_addr()),
        stores(c, nlri, s),
        forall|i: int|
            0 <= i < s.len() ==> ((#[trigger] s[i]).nexthop is V6
                ==> s[i].nexthop->V6_0.v4_mapped() is None),
    ensures
        item_report(item, order) == Ok::<Seq<GaugeView>, WarningView>(entry_gauges(s, nlri)),
{
    law_fib_reads_back(k, c, nlri, s);
    let k2 = choose|k2: CNlri| k2.laid_out(item.key@, order);
    crate::wire::law_nlri_bytes(k2, k, item.key@, order);
    let c2 = choose|c2: CFibEntry| c2.laid_out(value@, order);
    crate::wire::law_fib_entry_bytes(c2, c, value@, order);
}

/// The sum of weights: that of one nexthop is its weight, and sums of parts add up.
pub proof fn law_weights_add_up(
    s: Seq<WeightedNexthop>,
    t: Seq<WeightedNexthop>,
    x: WeightedNexthop,
)
    ensures
        weight_sum(Seq::empty()) == 0,
        weight_sum(seq![x]) == x.weight,
        weight_sum(s + t) == weight_sum(s) + weight_sum(t),
    decreases t.len(),
{
    assert(seq![x].drop_last() =~= Seq::empty());
    if t.len() == 0 {
        assert(s + t =~= s);
    } else {
        law_weights_add_up(s, t.drop_last(), x);
        assert((s + t).drop_last() =~= s + t.drop_last());
    }
}

/// What makes an entry: one to four nexthops, whose weights make up ten thousand and
/// of which none is zero. What is wrong is told in that order.
pub proof fn law_what_makes_an_entry(list: Seq<WeightedNexthop>)
    ensures
        fib_error(list) is None <==> 1 <= list.len() <= 4 && weight_sum(list) == 10_000 && forall|
            i: int,
        |
            0 <= i < list.len() ==> (#[trigger] list[i]).weight > 0,
        list.len() == 0 <==> fib_error(list) == Some(FibError::NoNexthop),
        list.len() > 4 <==> fib_error(list) == Some(FibError::TooManyNexthops),
        1 <= list.len() <= 4 && weight_sum(list) != 10_000 <==> fib_error(list) == Some(
            FibError::WeightSum,
        ),
        fib_error(list) == Some(FibError::ZeroWeight) ==> exists|i: int|
            0 <= i < list.len() && (#[trigger] list[i]).weight == 0,
{
}

/// Nexthops are ordered by the number under which they are stored: IPv4 addresses by
/// their own, all of them above the IPv6 addresses up to `::fffe:ffff:ffff` and below
/// those from `::1:0:0:0`.
pub proof fn law_order_of_nexthops(v4: u32, v6: u128, weight: u16)
    ensures
        key(
            (WeightedNexthop {
                nexthop: IpAddr::V4(Ipv4Addr { bits: v4 }),
                weight,
            }),
        ) == 0xffff_0000_0000 + v4,
        key((WeightedNexthop { nexthop: IpAddr::V6(Ipv6Addr { bits: v6 }), weight })) == v6,
{
}

/// After sorting no nexthop stands ahead of one that is stored under a smaller number.
pub proof fn law_sorted_ascends(list: Seq<WeightedNexthop>, i: int, j: int)
    requires
        0 <= i < j < list.len(),
    ensures
        sorted(list).len() == list.len(),
        mapped_bits(sorted(list)[i].nexthop) <= mapped_bits(sorted(list)[j].nexthop),
{
    law_sorted(list);
    assert(key(sorted(list)[i]) <= key(sorted(list)[j]));
}

/// What is already in order stays as it is, so that nexthops which are stored under
/// the same number keep their order.
pub proof fn law_sorting_is_stable(list: Seq<WeightedNexthop>)
    requires
        forall|i: int, j: int|
            0 <= i < j < list.len() ==> mapped_bits((#[trigger] list[i]).nexthop) <= mapped_bits(
                (#[trigger] list[j]).nexthop,
            ),
    ensures
        sorted(list) == list,
    decreases list.len(),
{
    if list.len() > 0 {
        let t = list.drop_last();
        assert forall|i: int, j: int| 0 <= i < j < t.len() implies mapped_bits(
            (#[trigger] t[i]).nexthop,
        ) <= mapped_bits((#[trigger] t[j]).nexthop) by {
            assert(mapped_bits(list[i].nexthop) <= mapped_bits(list[j].nexthop));
        }
        law_sorting_is_stable(t);
        if t.len() > 0 {
            assert(mapped_bits(list[t.len() - 1].nexthop) <= mapped_bits(
                list[list.len() - 1].nexthop,
            ));
        }
        assert(sorted(list) =~= list);
    }
}

/// What is stored of an entry: its prefix and the number of its nexthops, and in the
/// i-th slot the i-th nexthop with its weight; the slots behind them are zero.
pub proof fn law_slots_store_the_entry(
    c: CFibEntry,
    nlri: IpNet,
    s: Seq<WeightedNexthop>,
    i: int,
)
    requires
        stores(c, nlri, s),
        0 <= i < 4,
    ensures
        c.nexthop_count == s.len(),
        nlri is V4 ==> c.matched_nlri.prefix_len == nlri->V4_0.prefix_len + 96
            && c.matched_nlri.address.bits() == 0xffff_0000_0000 + nlri->V4_0.addr.bits,
        nlri is V6 ==> c.matched_nlri.prefix_len == nlri->V6_0.prefix_len
            && c.matched_nlri.address.bits() == nlri->V6_0.addr.bits,
        i < s.len() ==> c.weights@[i] == s[i].weight,
        i < s.len() && s[i].nexthop is V4 ==> c.nexthops@[i].bits() == 0xffff_0000_0000
            + s[i].nexthop->V4_0.bits,
        i < s.len() && s[i].nexthop is V6 ==> c.nexthops@[i].bits() == s[i].nexthop->V6_0.bits,
        i >= s.len() ==> c.weights@[i] == 0 && c.nexthops@[i].bits() == 0,
{
    assert(slot_stores(c, s, i));
}

/// What is reported of a stored entry: a value for every nexthop that it counts, of
/// the four slots at most, under its prefix and the nexthop of the slot.
pub proof fn law_report_of_stored_entry(c: CFibEntry, nlri: IpNet)
    ensures
        c.nexthop_count <= 4 ==> stored_gauges(c, nlri).len() == c.nexthop_count,
        c.nexthop_count > 4 ==> stored_gauges(c, nlri).len() == 4,
        forall|i: int|
            0 <= i < stored_gauges(c, nlri).len() ==> (
            #[trigger] stored_gauges(c, nlri)[i]).nlri == net_text(nlri) && stored_gauges(
                c,
                nlri,
            )[i].nexthop == addr_text(addr_of_bits(c.nexthops@[i].bits() as u128))
                && stored_gauges(c, nlri)[i].value == c.weights@[i],
{
}

/// What is reported of an entry: a value for every nexthop, its weight.
pub proof fn law_gauges_of_an_entry(s: Seq<WeightedNexthop>, nlri: IpNet)
    ensures
        entry_gauges(s, nlri).len() == s.len(),
        forall|i: int|
            0 <= i < s.len() ==> (#[trigger] entry_gauges(s, nlri)[i]).nlri == net_text(nlri)
                && entry_gauges(s, nlri)[i].nexthop == addr_text(s[i].nexthop) && entry_gauges(
                s,
                nlri,
            )[i].value == s[i].weight,
{
}

/// A key of other than twenty bytes is none; one that holds a prefix is read as that
/// prefix, or refused for the reason for which the prefix is.
pub proof fn law_keys_are_read(k: CNlri, key: Seq<u8>, order: ByteOrder)
    ensures
        key.len() != 20 ==> key_of(key, order) == Err::<IpNet, FibKeyError>(
            FibKeyError::Size(SizeMismatch),
        ),
        k.laid_out(key, order) ==> match net_of(k.prefix_len, k.address.bits() as u128) {
            Ok(net) => key_of(key, order) == Ok::<IpNet, FibKeyError>(net),
            Err(e) => key_of(key, order) == Err::<IpNet, FibKeyError>(FibKeyError::Nlri(e)),
        },
{
    if k.laid_out(key, order) {
        let j = choose|j: CNlri| j.laid_out(key, order);
        law_nlri_bytes(j, k, key, order);
    }
}

/// What becomes of an item of the table: where its key is bad, its value has not the
/// size of an entry or the lookup failed, a warning; where the entry is gone,
/// nothing; and otherwise what the stored entry says.
pub proof fn law_items_are_reported(item: FibItem, c: CFibEntry, nlri: IpNet, order: ByteOrder)
    ensures
        key_of(item.key@, order) is Err ==> item_report(item, order) == Err::<
            Seq<GaugeView>,
            WarningView,
        >(WarningView::Key(key_of(item.key@, order)->Err_0)),
        key_of(item.key@, order) == Ok::<IpNet, FibKeyError>(nlri) ==> match item.lookup {
            Lookup::Found(value) => {
                &&& value@.len() != 96 ==> item_report(item, order) == Err::<
                    Seq<GaugeView>,
                    WarningView,
                >(WarningView::Value(SizeMismatch))
                &&& c.laid_out(value@, order) ==> item_report(item, order) == Ok::<
                    Seq<GaugeView>,
                    WarningView,
                >(stored_gauges(c, nlri))
            },
            Lookup::Missing => item_report(item, order) == Ok::<Seq<GaugeView>, WarningView>(
                Seq::empty(),
            ),
            Lookup::Failed(e) => item_report(item, order) == Err::<Seq<GaugeView>, WarningView>(
                WarningView::Lookup(e@),
            ),
        },
{
    if let Lookup::Found(value) = item.lookup {
        if c.laid_out(value@, order) {
            let d = choose|d: CFibEntry| d.laid_out(value@, order);
            law_fib_entry_bytes(d, c, value@, order);
        }
    }
}

/// Every item has its place in the report: one that is understood among the values,
/// one that is not among the warnings, and the items of parts follow one another.
pub proof fn law_every_item_is_reported(
    s: Seq<FibItem>,
    t: Seq<FibItem>,
    x: FibItem,
    order: ByteOrder,
)
    ensures
        reported(Seq::empty(), order).len() == 0,
        left_out(Seq::empty(), order).len() == 0,
        match item_report(x, order) {
            Ok(gauges) => reported(seq![x], order) == gauges && left_out(seq![x], order).len() == 0,
            Err(e) => reported(seq![x], order).len() == 0 && left_out(seq![x], order) == seq![e],
        },
        reported(s + t, order) == reported(s, order) + reported(t, order),
        left_out(s + t, order) == left_out(s, order) + left_out(t, order),
    decreases t.len(),
{
    assert(seq![x].drop_last() =~= Seq::empty());
    assert(reported(Seq::empty(), order) =~= Seq::empty());
    assert(left_out(Seq::empty(), order) =~= Seq::empty());
    match item_report(x, order) {
        Ok(gauges) => {
            assert(reported(seq![x], order) =~= gauges);
            assert(left_out(seq![x], order) =~= Seq::empty());
        },
        Err(e) => {
            assert(reported(seq![x], order) =~= Seq::empty());
            assert(left_out(seq![x], order) =~= seq![e]);
        },
    }
    if t.len() == 0 {
        assert(s + t =~= s);
        assert(reported(s, order) + reported(t, order) =~= reported(s, order));
        assert(left_out(s, order) + left_out(t, order) =~= left_out(s, order));
    } else {
        law_every_item_is_reported(s, t.drop_last(), x, order);
        assert((s + t).drop_last() =~= s + t.drop_last());
        assert(reported(s + t, order) =~= reported(s, order) + reported(t, order));
        assert(left_out(s + t, order) =~= left_out(s, order) + left_out(t, order));
    }
}

proof fn lemma_insert_keeps_equals(s: Seq<WeightedNexthop>, x: WeightedNexthop, k: u128)
    ensures
        insert_sorted(s, x).filter(|w: WeightedNexthop| mapped_bits(w.nexthop) == k) == s.filter(
            |w: WeightedNexthop| mapped_bits(w.nexthop) == k,
        ) + if mapped_bits(x.nexthop) == k {
            seq![x]
        } else {
            Seq::empty()
        },
    decreases s.len(),
{
    reveal(Seq::filter);
    let pred = |w: WeightedNexthop| mapped_bits(w.nexthop) == k;
    let r = insert_sorted(s, x);
    let more = if mapped_bits(x.nexthop) == k {
        seq![x]
    } else {
        Seq::empty()
    };
    if s.len() == 0 || key(s.last()) <= key(x) {
        assert(r.drop_last() =~= s);
        assert(r.filter(pred) =~= s.filter(pred) + more);
    } else {
        let t = s.drop_last();
        lemma_insert_keeps_equals(t, x, k);
        assert(r.drop_last() =~= insert_sorted(t, x));
        assert(r.last() == s.last());
        assert(insert_sorted(t, x).filter(pred) == t.filter(pred) + more);
        assert(r.filter(pred) =~= s.filter(pred) + more);
    }
}

/// Nexthops that are stored under the same number keep their order, whatever stands
/// between them.
pub proof fn law_equals_keep_their_order(list: Seq<WeightedNexthop>, k: u128)
    ensures
        sorted(list).filter(|w: WeightedNexthop| mapped_bits(w.nexthop) == k) == list.filter(
            |w: WeightedNexthop| mapped_bits(w.nexthop) == k,
        ),
    decreases list.len(),
{
    reveal(Seq::filter);
    let pred = |w: WeightedNexthop| mapped_bits(w.nexthop) == k;
    if list.len() > 0 {
        let t = list.drop_last();
        law_equals_keep_their_order(t, k);
        lemma_insert_keeps_equals(sorted(t), list.last(), k);
        assert(sorted(list).filter(pred) =~= list.filter(pred));
    }
}

/// What is seen of values and warnings is what they hold.
pub proof fn law_samples_show_their_fields(
    list: Seq<GaugeSample>,
    key: FibKeyError,
    text: String,
)
    ensures
        gauge_views(list).len() == list.len(),
        forall|i: int|
            0 <= i < list.len() ==> (#[trigger] gauge_views(list)[i]).nlri == list[i].nlri@
                && gauge_views(list)[i].nexthop == list[i].nexthop@ && gauge_views(list)[i].value
                == list[i].value,
        FibWarning::Key(key)@ == WarningView::Key(key),
        FibWarning::Lookup(text)@ == WarningView::Lookup(text@),
        FibWarning::Value(SizeMismatch)@ == WarningView::Value(SizeMismatch),
{
}

} // verus!
