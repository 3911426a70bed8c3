//! Round-trip times of TCP connections, gathered per prefix and nexthop over a
//! sliding window.

use vstd::prelude::*;

use crate::assoc::{
    distinct_keys, has_key, law_pairs_are_the_map, lemma_map_of, lemma_map_values, map_of, AssocMap,
};
use crate::bgp::{Nexthop, Nlri};
use crate::bpf_abi::{addr_of_bits, net_of, CTcpRttEvent, NlriError};
use crate::fib::{gauge_views, GaugeSample, GaugeView};
use crate::net::{addr_text, net_text, IpAddr, IpNet};

verus! {

/// Time in nanoseconds after which samples are dropped: ten seconds.
pub const AGGREGATION_WINDOW_NS: u64 = 10_000_000_000;

/// One measurement.
#[derive(Clone, Copy, Debug, PartialEq, Eq, Structural)]
pub struct TcpRttSample {
    pub ts_ns: u64,
    pub srtt_us: u32,
    pub rtt_min: u32,
}

/// The measurements of a prefix, by nexthop, oldest arrival first.
pub type SampleTable = Map<Nexthop, Seq<TcpRttSample>>;

/// The sample has not left the window at the time `now`.
pub open spec fn fresh(sample: TcpRttSample, now: u64) -> bool {
    now - sample.ts_ns <= AGGREGATION_WINDOW_NS
}

/// The samples that have not left the window, in their order.
pub open spec fn kept(samples: Seq<TcpRttSample>, now: u64) -> Seq<TcpRttSample> {
    samples.filter(|s: TcpRttSample| fresh(s, now))
}

/// The table without samples that have left the window; a nexthop without
/// samples leaves it too.
pub open spec fn pruned_nexthops(table: SampleTable, now: u64) -> SampleTable {
    Map::new(
        |nexthop: Nexthop| table.dom().contains(nexthop) && kept(table[nexthop], now).len() > 0,
        |nexthop: Nexthop| kept(table[nexthop], now),
    )
}

/// Some nexthop of the prefix still has samples in the window.
pub open spec fn any_kept(table: SampleTable, now: u64) -> bool {
    exists|nexthop: Nexthop|
        table.dom().contains(nexthop) && (#[trigger] kept(table[nexthop], now)).len() > 0
}

/// The tables without samples that have left the window; a prefix without
/// nexthops leaves them too.
pub open spec fn pruned(tables: Map<Nlri, SampleTable>, now: u64) -> Map<Nlri, SampleTable> {
    Map::new(
        |nlri: Nlri| tables.dom().contains(nlri) && any_kept(tables[nlri], now),
        |nlri: Nlri| pruned_nexthops(tables[nlri], now),
    )
}

/// The samples of a nexthop, none where it has not been seen.
pub open spec fn samples_of(table: SampleTable, nexthop: Nexthop) -> Seq<TcpRttSample> {
    if table.dom().contains(nexthop) {
        table[nexthop]
    } else {
        Seq::empty()
    }
}

/// The table of a prefix, empty where it has not been seen.
pub open spec fn table_of(tables: Map<Nlri, SampleTable>, nlri: Nlri) -> SampleTable {
    if tables.dom().contains(nlri) {
        tables[nlri]
    } else {
        Map::empty()
    }
}

/// The tables with one more sample behind those of its prefix and nexthop.
pub open spec fn with_sample(
    tables: Map<Nlri, SampleTable>,
    nlri: Nlri,
    nexthop: Nexthop,
    sample: TcpRttSample,
) -> Map<Nlri, SampleTable> {
    let table = table_of(tables, nlri);
    tables.insert(nlri, table.insert(nexthop, samples_of(table, nexthop).push(sample)))
}

/// The sample that an event carries.
pub open spec fn sample_of(event: CTcpRttEvent) -> TcpRttSample {
    TcpRttSample { ts_ns: event.ts_ns, srtt_us: event.srtt_us, rtt_min: event.rtt_min }
}

/// No prefix is without nexthops and no nexthop without samples.
pub open spec fn no_empties(tables: Map<Nlri, SampleTable>) -> bool {
    forall|nlri: Nlri| #[trigger]
        tables.dom().contains(nlri) ==> {
            &&& exists|nexthop: Nexthop| #[trigger] tables[nlri].dom().contains(nexthop)
            &&& forall|nexthop: Nexthop| #[trigger]
                tables[nlri].dom().contains(nexthop) ==> tables[nlri][nexthop].len() > 0
        }
}

type NexthopSamples = AssocMap<IpAddr, Vec<TcpRttSample>>;

/// The samples within the window, by prefix and nexthop.
#[derive(Clone, Debug)]
pub struct TcpRttAggregatorState {
    pub samples: AssocMap<IpNet, AssocMap<IpAddr, Vec<TcpRttSample>>>,
}

/// The table that a list of nexthops with their samples stands for.
pub open spec fn table_view(m: AssocMap<IpAddr, Vec<TcpRttSample>>) -> SampleTable {
    m@.map_values(|v: Vec<TcpRttSample>| v@)
}

impl View for TcpRttAggregatorState {
    type V = Map<Nlri, SampleTable>;

    open spec fn view(&self) -> Map<Nlri, SampleTable> {
        self.samples@.map_values(|m: AssocMap<IpAddr, Vec<TcpRttSample>>| table_view(m))
    }
}

fn kept_samples(samples: &Vec<TcpRttSample>, now_ns: u64) -> (r: Vec<TcpRttSample>)
    ensures
        r@ == kept(samples@, now_ns),
{
    let ghost pred = |s: TcpRttSample| fresh(s, now_ns);
    let mut out: Vec<TcpRttSample> = Vec::new();
    let mut i: usize = 0;
    proof {
        assert(samples@.take(0) =~= Seq::empty());
        reveal(Seq::filter);
    }
    while i < samples.len()
        invariant
            i <= samples@.len(),
            pred == (|s: TcpRttSample| fresh(s, now_ns)),
            out@ == samples@.take(i as int).filter(pred),
        decreases samples@.len() - i,
    {
        proof {
            reveal(Seq::filter);
            assert(samples@.take(i + 1).drop_last() =~= samples@.take(i as int));
            assert(samples@.take(i + 1).last() == samples@[i as int]);
        }
        if now_ns.saturating_sub(samples[i].ts_ns) <= AGGREGATION_WINDOW_NS {
            out.push(samples[i]);
        }
        i += 1;
    }
    assert(samples@.take(samples@.len() as int) =~= samples@);
    out
}

fn prune_nexthops(table: &NexthopSamples, now_ns: u64) -> (r: NexthopSamples)
    requires
        table.wf(),
    ensures
        r.wf(),
        table_view(r) == pruned_nexthops(table_view(*table), now_ns),
        r.entries@.len() > 0 <==> any_kept(table_view(*table), now_ns),
{
    let ghost s = table.entries@;
    let ghost whole = table_view(*table);
    proof {
        lemma_map_of(s);
    }
    let mut out: NexthopSamples = AssocMap::new();
    let mut i: usize = 0;
    while i < table.entries.len()
        invariant
            i <= s.len(),
            s == table.entries@,
            distinct_keys(s),
            whole == table_view(*table),
            forall|k: IpAddr| #[trigger] whole.dom().contains(k) <==> has_key(s, k),
            forall|j: int| 0 <= j < s.len() ==> whole[(#[trigger] s[j]).0] == s[j].1@,
            out.wf(),
            forall|k: IpAddr| #[trigger]
                out@.dom().contains(k) ==> exists|j: int|
                    0 <= j < i && (#[trigger] s[j]).0 == k && kept(s[j].1@, now_ns).len() > 0,
            forall|j: int|
                0 <= j < i && kept((#[trigger] s[j]).1@, now_ns).len() > 0 ==> {
                    &&& out@.dom().contains(s[j].0)
                    &&& out@[s[j].0]@ == kept(s[j].1@, now_ns)
                },
        decreases s.len() - i,
    {
        let samples = kept_samples(&table.entries[i].1, now_ns);
        let ghost before = out@;
        if samples.len() > 0 {
            out.insert(table.entries[i].0, samples);
            proof {
                assert forall|j: int|
                    0 <= j < i + 1 && kept((#[trigger] s[j]).1@, now_ns).len() > 0 implies {
                    &&& out@.dom().contains(s[j].0)
                    &&& out@[s[j].0]@ == kept(s[j].1@, now_ns)
                } by {
                    if j < i {
                        assert(s[j].0 != s[i as int].0);
                    }
                }
                assert forall|k: IpAddr| #[trigger] out@.dom().contains(k) implies exists|j: int|
                    0 <= j < i + 1 && (#[trigger] s[j]).0 == k && kept(s[j].1@, now_ns).len()
                        > 0 by {
                    if k == s[i as int].0 {
                        assert(s[i as int].0 == k);
                    } else {
                        assert(before.dom().contains(k));
                        let j = choose|j: int|
                            0 <= j < i && (#[trigger] s[j]).0 == k && kept(s[j].1@, now_ns).len()
                                > 0;
                        assert(s[j].0 == k);
                    }
                }
            }
        }
        i += 1;
    }
    proof {
        let want = pruned_nexthops(whole, now_ns);
        let got = table_view(out);
        assert forall|k: IpAddr| #[trigger] got.dom().contains(k) <==> want.dom().contains(k) by {
            if out@.dom().contains(k) {
                let j = choose|j: int|
                    0 <= j < s.len() && (#[trigger] s[j]).0 == k && kept(s[j].1@, now_ns).len() > 0;
                assert(has_key(s, k));
                assert(whole[s[j].0] == s[j].1@);
            }
            if want.dom().contains(k) {
                assert(has_key(s, k));
                let j = choose|j: int| 0 <= j < s.len() && (#[trigger] s[j]).0 == k;
                assert(whole[s[j].0] == s[j].1@);
            }
        }
        assert forall|k: IpAddr| got.dom().contains(k) implies #[trigger] got[k] == want[k] by {
            let j = choose|j: int|
                0 <= j < s.len() && (#[trigger] s[j]).0 == k && kept(s[j].1@, now_ns).len() > 0;
            assert(whole[s[j].0] == s[j].1@);
        }
        assert(got =~= want);
        lemma_map_of(out.entries@);
        if out.entries@.len() > 0 {
            let k = out.entries@[0].0;
            assert(has_key(out.entries@, k));
            assert(got.dom().contains(k));
            assert(kept(whole[k], now_ns).len() > 0);
        }
        if any_kept(whole, now_ns) {
            let k = choose|k: Nexthop|
                whole.dom().contains(k) && (#[trigger] kept(whole[k], now_ns)).len() > 0;
            assert(want.dom().contains(k));
            assert(out@.dom().contains(k));
        }
    }
    out
}

impl TcpRttAggregatorState {
    /// Every prefix and every nexthop is listed once, and none without samples.
    pub open spec fn wf(self) -> bool {
        &&& self.samples.wf()
        &&& forall|i: int|
            0 <= i < self.samples.entries@.len() ==> (#[trigger] self.samples.entries@[i]).1.wf()
        &&& no_empties(self@)
    }

    /// No samples.
    pub fn new() -> (r: TcpRttAggregatorState)
        ensures
            r.wf(),
            r@ == Map::<Nlri, SampleTable>::empty(),
    {
        let r = TcpRttAggregatorState { samples: AssocMap::new() };
        assert(r@ =~= Map::<Nlri, SampleTable>::empty());
        r
    }

    /// Drops the samples that have left the window.
    pub fn prune(&mut self, now_ns: u64)
        requires
            old(self).wf(),
        ensures
            final(self).wf(),
            final(self)@ == pruned(old(self)@, now_ns),
    {
        let ghost s = self.samples.entries@;
        let ghost whole = self@;
        proof {
            lemma_map_of(s);
        }
        let mut out: AssocMap<IpNet, NexthopSamples> = AssocMap::new();
        let mut i: usize = 0;
        while i < self.samples.entries.len()
            invariant
                i <= s.len(),
                s == self.samples.entries@,
                distinct_keys(s),
                forall|j: int| 0 <= j < s.len() ==> (#[trigger] s[j]).1.wf(),
                out.wf(),
                forall|j: int|
                    0 <= j < out.entries@.len() ==> (#[trigger] out.entries@[j]).1.wf(),
                forall|k: IpNet| #[trigger]
                    out@.dom().contains(k) ==> exists|j: int|
                        0 <= j < i && (#[trigger] s[j]).0 == k && any_kept(
                            table_view(s[j].1),
                            now_ns,
                        ),
                forall|j: int|
                    0 <= j < i && any_kept(table_view((#[trigger] s[j]).1), now_ns) ==> {
                        &&& out@.dom().contains(s[j].0)
                        &&& table_view(out@[s[j].0]) == pruned_nexthops(
                            table_view(s[j].1),
                            now_ns,
                        )
                    },
            decreases s.len() - i,
        {
            let table = prune_nexthops(&self.samples.entries[i].1, now_ns);
            let ghost before = out;
            if table.entries.len() > 0 {
                let ghost k0 = s[i as int].0;
                out.insert(self.samples.entries[i].0, table);
                proof {
                    lemma_map_of(before.entries@);
                    lemma_map_of(out.entries@);
                    assert forall|j: int| 0 <= j < out.entries@.len() implies (
                    #[trigger] out.entries@[j]).1.wf() by {
                        let k = out.entries@[j].0;
                        assert(has_key(out.entries@, k));
                        assert(out@[k] == out.entries@[j].1);
                        assert(out@.dom().contains(k));
                        if k != k0 {
                            assert(before@.dom().contains(k));
                            let x = choose|x: int|
                                0 <= x < before.entries@.len() && (
                                #[trigger] before.entries@[x]).0 == k;
                            assert(before@[k] == before.entries@[x].1);
                        }
                    }
                    assert forall|j: int|
                        0 <= j < i + 1 && any_kept(
                            table_view((#[trigger] s[j]).1),
                            now_ns,
                        ) implies {
                        &&& out@.dom().contains(s[j].0)
                        &&& table_view(out@[s[j].0]) == pruned_nexthops(
                            table_view(s[j].1),
                            now_ns,
                        )
                    } by {
                        if j < i {
                            assert(s[j].0 != s[i as int].0);
                        }
                    }
                    assert forall|k: IpNet| #[trigger]
                        out@.dom().contains(k) implies exists|j: int|
                        0 <= j < i + 1 && (#[trigger] s[j]).0 == k && any_kept(
                            table_view(s[j].1),
                            now_ns,
                        ) by {
                        if k == k0 {
                            assert(s[i as int].0 == k);
                        } else {
                            assert(before@.dom().contains(k));
                            let j = choose|j: int|
                                0 <= j < i && (#[trigger] s[j]).0 == k && any_kept(
                                    table_view(s[j].1),
                                    now_ns,
                                );
                            assert(s[j].0 == k);
                        }
                    }
                }
            }
            i += 1;
        }
        self.samples = out;
        proof {
            let want = pruned(whole, now_ns);
            let got = self@;
            assert forall|k: IpNet| #[trigger] got.dom().contains(k) <==> want.dom().contains(
                k,
            ) by {
                if out@.dom().contains(k) {
                    let j = choose|j: int|
                        0 <= j < s.len() && (#[trigger] s[j]).0 == k && any_kept(
                            table_view(s[j].1),
                            now_ns,
                        );
                    assert(has_key(s, k));
                    assert(whole[k] == table_view(s[j].1));
                }
                if want.dom().contains(k) {
                    assert(has_key(s, k));
                    let j = choose|j: int| 0 <= j < s.len() && (#[trigger] s[j]).0 == k;
                    assert(whole[k] == table_view(s[j].1));
                }
            }
            assert forall|k: IpNet| got.dom().contains(k) implies #[trigger] got[k]
                == want[k] by {
                let j = choose|j: int|
                    0 <= j < s.len() && (#[trigger] s[j]).0 == k && any_kept(
                        table_view(s[j].1),
                        now_ns,
                    );
                assert(has_key(s, k));
                assert(whole[k] == table_view(s[j].1));
            }
            assert(got =~= want);
            law_pruned_has_no_empties(whole, now_ns);
        }
    }

    /// Takes in the measurement of an event that arrives at the time `now_ns`:
    /// an event older than the window is ignored, and so is one whose prefix
    /// stands for no network.
    pub fn observe(&mut self, now_ns: u64, event: CTcpRttEvent) -> (r: Result<(), NlriError>)
        requires
            old(self).wf(),
        ensures
            final(self).wf(),
            (r, final(self)@) == observed(old(self)@, now_ns, event),
            now_ns - event.ts_ns > 10_000_000_000 ==> r is Ok && final(self)@ == old(self)@,
            now_ns - event.ts_ns <= 10_000_000_000 ==> match net_of(
                event.matched_nlri.prefix_len,
                event.matched_nlri.address.bits() as u128,
            ) {
                Ok(nlri) => {
                    let nexthop = addr_of_bits(event.nexthop.bits() as u128);
                    &&& r is Ok
                    &&& final(self)@.dom().contains(nlri)
                    &&& final(self)@[nlri].dom().contains(nexthop)
                    &&& final(self)@[nlri][nexthop].len() > 0
                    &&& final(self)@[nlri][nexthop].last().ts_ns == event.ts_ns
                    &&& final(self)@[nlri][nexthop].last().srtt_us == event.srtt_us
                    &&& final(self)@[nlri][nexthop].last().rtt_min == event.rtt_min
                },
                Err(e) => r == Err::<(), NlriError>(e),
            },
    {
        if now_ns.saturating_sub(event.ts_ns) > AGGREGATION_WINDOW_NS {
            return Ok(());
        }
        self.prune(now_ns);
        let nlri = match IpNet::try_from(event.matched_nlri) {
            Ok(nlri) => nlri,
            Err(e) => {
                return Err(e);
            },
        };
        let nexthop = IpAddr::from(event.nexthop);
        let sample = TcpRttSample {
            ts_ns: event.ts_ns,
            srtt_us: event.srtt_us,
            rtt_min: event.rtt_min,
        };
        self.push_sample(nlri, nexthop, sample);
        Ok(())
    }

    fn push_sample(&mut self, nlri: IpNet, nexthop: IpAddr, sample: TcpRttSample)
        requires
            old(self).wf(),
        ensures
            final(self).wf(),
            final(self)@ == with_sample(old(self)@, nlri, nexthop, sample),
    {
        let ghost start = *self;
        proof {
            lemma_map_of(start.samples.entries@);
        }
        let mut table = match self.samples.take(&nlri) {
            Some(table) => {
                proof {
                    let k = choose|k: int|
                        0 <= k < start.samples.entries@.len() && (
                        #[trigger] start.samples.entries@[k]).0 == nlri;
                    assert(start.samples@[start.samples.entries@[k].0]
                        == start.samples.entries@[k].1);
                }
                table
            },
            None => AssocMap::new(),
        };
        let ghost middle = *self;
        let ghost old_table = table;
        assert(table.wf());
        assert(table_view(table) =~= table_of(start@, nlri));
        let mut samples = match table.take(&nexthop) {
            Some(samples) => samples,
            None => Vec::new(),
        };
        assert(samples@ =~= samples_of(table_of(start@, nlri), nexthop));
        samples.push(sample);
        table.insert(nexthop, samples);
        assert(table_view(table) =~= table_of(start@, nlri).insert(
            nexthop,
            samples_of(table_of(start@, nlri), nexthop).push(sample),
        ));
        self.samples.insert(nlri, table);
        proof {
            assert(self@ =~= with_sample(start@, nlri, nexthop, sample));
            lemma_map_of(middle.samples.entries@);
            lemma_map_of(self.samples.entries@);
            assert forall|j: int| 0 <= j < self.samples.entries@.len() implies (
            #[trigger] self.samples.entries@[j]).1.wf() by {
                let k = self.samples.entries@[j].0;
                assert(has_key(self.samples.entries@, k));
                assert(self.samples@[k] == self.samples.entries@[j].1);
                assert(self.samples@.dom().contains(k));
                if k != nlri {
                    assert(start.samples@.dom().contains(k));
                    let x = choose|x: int|
                        0 <= x < start.samples.entries@.len() && (
                        #[trigger] start.samples.entries@[x]).0 == k;
                    assert(start.samples@[k] == start.samples.entries@[x].1);
                }
            }
            law_sample_keeps_no_empties(start@, nlri, nexthop, sample);
        }
    }
}

/// What an event that arrives at the time `now` leaves, and what is answered.
pub open spec fn observed(
    tables: Map<Nlri, SampleTable>,
    now: u64,
    event: CTcpRttEvent,
) -> (Result<(), NlriError>, Map<Nlri, SampleTable>) {
    if !fresh(sample_of(event), now) {
        (Ok(()), tables)
    } else {
        match net_of(event.matched_nlri.prefix_len, event.matched_nlri.address.bits() as u128) {
            Ok(nlri) => (
                Ok(()),
                with_sample(
                    pruned(tables, now),
                    nlri,
                    addr_of_bits(event.nexthop.bits() as u128),
                    sample_of(event),
                ),
            ),
            Err(e) => (Err(e), pruned(tables, now)),
        }
    }
}

/// Pruning leaves no prefix without nexthops and no nexthop without samples.
pub proof fn law_pruned_has_no_empties(tables: Map<Nlri, SampleTable>, now: u64)
    ensures
        no_empties(pruned(tables, now)),
{
    let p = pruned(tables, now);
    assert forall|nlri: Nlri| #[trigger] p.dom().contains(nlri) implies {
        &&& exists|nexthop: Nexthop| #[trigger] p[nlri].dom().contains(nexthop)
        &&& forall|nexthop: Nexthop| #[trigger]
            p[nlri].dom().contains(nexthop) ==> p[nlri][nexthop].len() > 0
    } by {
        let table = tables[nlri];
        let nexthop = choose|nexthop: Nexthop|
            table.dom().contains(nexthop) && (#[trigger] kept(table[nexthop], now)).len() > 0;
        assert(p[nlri].dom().contains(nexthop));
    }
}

/// Nor does taking in a sample.
pub proof fn law_sample_keeps_no_empties(
    tables: Map<Nlri, SampleTable>,
    nlri: Nlri,
    nexthop: Nexthop,
    sample: TcpRttSample,
)
    requires
        no_empties(tables),
    ensures
        no_empties(with_sample(tables, nlri, nexthop, sample)),
{
    let w = with_sample(tables, nlri, nexthop, sample);
    assert forall|n: Nlri| #[trigger] w.dom().contains(n) implies {
        &&& exists|h: Nexthop| #[trigger] w[n].dom().contains(h)
        &&& forall|h: Nexthop| #[trigger] w[n].dom().contains(h) ==> w[n][h].len() > 0
    } by {
        if n == nlri {
            assert(w[n].dom().contains(nexthop));
            assert forall|h: Nexthop| #[trigger] w[n].dom().contains(h) implies w[n][h].len()
                > 0 by {
                if h != nexthop {
                    assert(tables.dom().contains(nlri));
                    assert(tables[nlri].dom().contains(h));
                }
            }
        } else {
            assert(tables.dom().contains(n));
            assert(w[n] == tables[n]);
            let h = choose|h: Nexthop| #[trigger] tables[n].dom().contains(h);
            assert(w[n].dom().contains(h));
        }
    }
}

/// The smoothed round-trip times, added up.
pub open spec fn srtt_sum(samples: Seq<TcpRttSample>) -> nat
    decreases samples.len(),
{
    if samples.len() == 0 {
        0
    } else {
        srtt_sum(samples.drop_last()) + samples.last().srtt_us as nat
    }
}

/// The largest smoothed round-trip time.
pub open spec fn srtt_max(samples: Seq<TcpRttSample>) -> u32
    decreases samples.len(),
{
    if samples.len() == 0 {
        0
    } else if samples.last().srtt_us > srtt_max(samples.drop_last()) {
        samples.last().srtt_us
    } else {
        srtt_max(samples.drop_last())
    }
}

/// The smallest of the minimal round-trip times.
pub open spec fn rtt_min_min(samples: Seq<TcpRttSample>) -> u32
    decreases samples.len(),
{
    if samples.len() == 0 {
        0
    } else if samples.len() == 1 || samples.last().rtt_min < rtt_min_min(samples.drop_last()) {
        samples.last().rtt_min
    } else {
        rtt_min_min(samples.drop_last())
    }
}

/// A summary of the samples of a prefix and nexthop.
#[derive(Clone, Copy, Debug, PartialEq, Eq, Structural)]
pub struct TcpRttWindow {
    pub samples: usize,
    pub avg_srtt_us: u64,
    pub max_srtt_us: u32,
    pub min_rtt_min: u32,
}

/// The summary of samples: their number, the mean of the smoothed times rounded
/// down, and the extremes; all zero where there is none.
pub open spec fn window_of(samples: Seq<TcpRttSample>) -> TcpRttWindow {
    TcpRttWindow {
        samples: samples.len() as usize,
        avg_srtt_us: if samples.len() == 0 {
            0
        } else {
            (srtt_sum(samples) / samples.len()) as u64
        },
        max_srtt_us: srtt_max(samples),
        min_rtt_min: rtt_min_min(samples),
    }
}

/// The extremes bound every sample, and the mean lies below the largest.
pub proof fn law_window_bounds(samples: Seq<TcpRttSample>)
    ensures
        forall|i: int|
            0 <= i < samples.len() ==> (#[trigger] samples[i]).srtt_us <= srtt_max(samples)
                && samples[i].rtt_min >= rtt_min_min(samples),
        srtt_sum(samples) <= samples.len() * srtt_max(samples),
        samples.len() > 0 ==> srtt_sum(samples) / samples.len() <= srtt_max(samples),
    decreases samples.len(),
{
    if samples.len() > 0 {
        let head = samples.drop_last();
        law_window_bounds(head);
        let m = srtt_max(samples) as int;
        assert(srtt_max(head) <= m);
        assert(head.len() * srtt_max(head) <= head.len() * m) by (nonlinear_arith)
            requires
                srtt_max(head) <= m,
                head.len() >= 0,
        ;
        assert(head.len() * m + m == samples.len() * m) by (nonlinear_arith)
            requires
                samples.len() == head.len() + 1,
        ;
        assert forall|i: int| 0 <= i < samples.len() implies (#[trigger] samples[i]).srtt_us
            <= srtt_max(samples) && samples[i].rtt_min >= rtt_min_min(samples) by {
            if i < head.len() {
                assert(head[i] == samples[i]);
            }
        }
        let (sum, n) = (srtt_sum(samples) as int, samples.len() as int);
        assert(sum / n <= m) by (nonlinear_arith)
            requires
                sum <= n * m,
                n > 0,
                sum >= 0,
        ;
    }
}

impl TcpRttWindow {
    /// The summary of samples.
    pub fn from_samples(samples: &Vec<TcpRttSample>) -> (r: TcpRttWindow)
        ensures
            r == window_of(samples@),
            r.samples == samples@.len(),
            samples@.len() > 0 ==> r.avg_srtt_us * samples@.len() <= srtt_sum(samples@) < (
            r.avg_srtt_us + 1) * samples@.len(),
            forall|i: int|
                0 <= i < samples@.len() ==> r.min_rtt_min <= (#[trigger] samples@[i]).rtt_min
                    && samples@[i].srtt_us <= r.max_srtt_us,
    {
        if samples.len() == 0 {
            return TcpRttWindow { samples: 0, avg_srtt_us: 0, max_srtt_us: 0, min_rtt_min: 0 };
        }
        let mut sum: u128 = 0;
        let mut max: u32 = 0;
        let mut min: u32 = 0;
        let mut i: usize = 0;
        assert(samples@.take(0) =~= Seq::empty());
        while i < samples.len()
            invariant
                i <= samples@.len(),
                sum == srtt_sum(samples@.take(i as int)),
                sum <= i * 0xffff_ffff,
                max == srtt_max(samples@.take(i as int)),
                min == rtt_min_min(samples@.take(i as int)),
            decreases samples@.len() - i,
        {
            let sample = samples[i];
            proof {
                assert(samples@.take(i + 1).drop_last() =~= samples@.take(i as int));
                assert(samples@.take(i + 1).last() == sample);
            }
            sum = sum + sample.srtt_us as u128;
            if sample.srtt_us > max {
                max = sample.srtt_us;
            }
            if i == 0 || sample.rtt_min < min {
                min = sample.rtt_min;
            }
            i += 1;
        }
        proof {
            assert(samples@.take(samples@.len() as int) =~= samples@);
            law_window_bounds(samples@);
            law_window_sums_up(samples@);
        }
        let avg: u128 = sum / samples.len() as u128;
        TcpRttWindow {
            samples: samples.len(),
            avg_srtt_us: avg as u64,
            max_srtt_us: max,
            min_rtt_min: min,
        }
    }
}

type NexthopWindows = AssocMap<IpAddr, TcpRttWindow>;

/// The summaries of all prefixes and nexthops at one time.
#[derive(Clone, Debug)]
pub struct TcpRttSnapshot {
    pub windows: AssocMap<IpNet, AssocMap<IpAddr, TcpRttWindow>>,
}

impl View for TcpRttSnapshot {
    type V = Map<Nlri, Map<Nexthop, TcpRttWindow>>;

    open spec fn view(&self) -> Map<Nlri, Map<Nexthop, TcpRttWindow>> {
        self.windows@.map_values(|m: AssocMap<IpAddr, TcpRttWindow>| m@)
    }
}

impl TcpRttSnapshot {
    /// Every prefix and every nexthop is listed once.
    pub open spec fn wf(self) -> bool {
        &&& self.windows.wf()
        &&& forall|i: int|
            0 <= i < self.windows.entries@.len() ==> (#[trigger] self.windows.entries@[i]).1.wf()
    }
}

/// The summaries of a table.
pub open spec fn windows_of(table: SampleTable) -> Map<Nexthop, TcpRttWindow> {
    table.map_values(|s: Seq<TcpRttSample>| window_of(s))
}

/// The summaries of all tables.
pub open spec fn snapshot_of(tables: Map<Nlri, SampleTable>) -> Map<
    Nlri,
    Map<Nexthop, TcpRttWindow>,
> {
    tables.map_values(|t: SampleTable| windows_of(t))
}

fn summarise(table: &NexthopSamples) -> (r: NexthopWindows)
    requires
        table.wf(),
    ensures
        r.wf(),
        r@ == windows_of(table_view(*table)),
{
    let ghost s = table.entries@;
    let mut out: Vec<(IpAddr, TcpRttWindow)> = Vec::new();
    let mut i: usize = 0;
    while i < table.entries.len()
        invariant
            i <= s.len(),
            s == table.entries@,
            out@.len() == i,
            forall|j: int|
                0 <= j < i ==> (#[trigger] out@[j]).0 == s[j].0 && out@[j].1 == window_of(s[j].1@),
        decreases s.len() - i,
    {
        out.push((table.entries[i].0, TcpRttWindow::from_samples(&table.entries[i].1)));
        i += 1;
    }
    proof {
        let f = |v: Vec<TcpRttSample>| window_of(v@);
        let g = |w: TcpRttWindow| w;
        lemma_map_values(s, out@, f, g);
        assert(map_of(out@).map_values(g) =~= map_of(out@));
        assert(map_of(s).map_values(f) =~= windows_of(table_view(*table)));
    }
    AssocMap { entries: out }
}

impl TcpRttAggregatorState {
    /// The summaries of the samples that are in the window at the time `now_ns`;
    /// the others are dropped.
    pub fn snapshot(&mut self, now_ns: u64) -> (r: TcpRttSnapshot)
        requires
            old(self).wf(),
        ensures
            final(self).wf(),
            final(self)@ == pruned(old(self)@, now_ns),
            r.wf(),
            r@ == snapshot_of(pruned(old(self)@, now_ns)),
    {
        self.prune(now_ns);
        let ghost s = self.samples.entries@;
        let mut out: Vec<(IpNet, NexthopWindows)> = Vec::new();
        let mut i: usize = 0;
        while i < self.samples.entries.len()
            invariant
                i <= s.len(),
                s == self.samples.entries@,
                forall|j: int| 0 <= j < s.len() ==> (#[trigger] s[j]).1.wf(),
                out@.len() == i,
                forall|j: int|
                    0 <= j < i ==> (#[trigger] out@[j]).0 == s[j].0 && out@[j].1.wf()
                        && out@[j].1@ == windows_of(table_view(s[j].1)),
            decreases s.len() - i,
        {
            out.push((self.samples.entries[i].0, summarise(&self.samples.entries[i].1)));
            i += 1;
        }
        let r = TcpRttSnapshot { windows: AssocMap { entries: out } };
        proof {
            let f = |m: AssocMap<IpAddr, Vec<TcpRttSample>>| windows_of(table_view(m));
            let g = |m: AssocMap<IpAddr, TcpRttWindow>| m@;
            lemma_map_values(s, out@, f, g);
            assert(map_of(s).map_values(f) =~= snapshot_of(self@));
            assert(r@ =~= map_of(out@).map_values(g));
        }
        r
    }
}

/// A prefix, a nexthop and the summary of their samples.
pub struct Row {
    pub nlri: Nlri,
    pub nexthop: Nexthop,
    pub window: TcpRttWindow,
}

/// The rows of one prefix, in the order of the list.
pub open spec fn nexthop_rows(nlri: Nlri, list: Seq<(Nexthop, TcpRttWindow)>) -> Seq<Row> {
    list.map_values(|e: (Nexthop, TcpRttWindow)| Row { nlri, nexthop: e.0, window: e.1 })
}

/// The rows of all prefixes, in the order of the lists.
pub open spec fn rows(list: Seq<(Nlri, AssocMap<Nexthop, TcpRttWindow>)>) -> Seq<Row>
    decreases list.len(),
{
    if list.len() == 0 {
        Seq::empty()
    } else {
        rows(list.drop_last()) + nexthop_rows(list.last().0, list.last().1.entries@)
    }
}

/// What is reported of a window.
#[derive(Clone, Copy, Debug, PartialEq, Eq, Structural)]
pub enum RttGauge {
    Samples,
    SrttAvg,
    SrttMax,
    RttMinMin,
}

impl RttGauge {
    /// The number that is reported of a window.
    pub open spec fn of(self, window: TcpRttWindow) -> u64 {
        match self {
            RttGauge::Samples => window.samples as u64,
            RttGauge::SrttAvg => window.avg_srtt_us,
            RttGauge::SrttMax => window.max_srtt_us as u64,
            RttGauge::RttMinMin => window.min_rtt_min as u64,
        }
    }

    /// The number that is reported of a window.
    pub fn extract(&self, window: &TcpRttWindow) -> (r: u64)
        ensures
            r == self.of(*window),
    {
        match self {
            RttGauge::Samples => window.samples as u64,
            RttGauge::SrttAvg => window.avg_srtt_us,
            RttGauge::SrttMax => window.max_srtt_us as u64,
            RttGauge::RttMinMin => window.min_rtt_min as u64,
        }
    }

    /// The name under which it is reported.
    pub fn name(&self) -> (r: &'static str)
        ensures
            r@ == (match self {
                RttGauge::Samples => "erez_tcp_rtt_window_samples"@,
                RttGauge::SrttAvg => "erez_tcp_rtt_window_srtt_us_avg"@,
                RttGauge::SrttMax => "erez_tcp_rtt_window_srtt_us_max"@,
                RttGauge::RttMinMin => "erez_tcp_rtt_window_rtt_min_us_min"@,
            }),
    {
        match self {
            RttGauge::Samples => "erez_tcp_rtt_window_samples",
            RttGauge::SrttAvg => "erez_tcp_rtt_window_srtt_us_avg",
            RttGauge::SrttMax => "erez_tcp_rtt_window_srtt_us_max",
            RttGauge::RttMinMin => "erez_tcp_rtt_window_rtt_min_us_min",
        }
    }

    /// The text that explains it.
    pub fn help(&self) -> (r: &'static str)
        ensures
            r@ == (match self {
                RttGauge::Samples => "Number of TCP RTT samples in the current aggregation window"@,
                RttGauge::SrttAvg => "Average smoothed TCP RTT in the current aggregation window"@,
                RttGauge::SrttMax => "Maximum smoothed TCP RTT in the current aggregation window"@,
                RttGauge::RttMinMin => "Minimum TCP RTT minimum in the current aggregation window"@,
            }),
    {
        match self {
            RttGauge::Samples => "Number of TCP RTT samples in the current aggregation window",
            RttGauge::SrttAvg => "Average smoothed TCP RTT in the current aggregation window",
            RttGauge::SrttMax => "Maximum smoothed TCP RTT in the current aggregation window",
            RttGauge::RttMinMin => "Minimum TCP RTT minimum in the current aggregation window",
        }
    }

    /// All that is reported, in the order in which it is.
    pub fn all() -> (r: Vec<RttGauge>)
        ensures
            r@ == seq![
                RttGauge::Samples,
                RttGauge::SrttAvg,
                RttGauge::SrttMax,
                RttGauge::RttMinMin,
            ],
    {
        vec![RttGauge::Samples, RttGauge::SrttAvg, RttGauge::SrttMax, RttGauge::RttMinMin]
    }
}

/// The report of one row.
pub open spec fn row_gauge(row: Row, gauge: RttGauge) -> GaugeView {
    GaugeView {
        nlri: net_text(row.nlri),
        nexthop: addr_text(row.nexthop),
        value: gauge.of(row.window),
    }
}

/// The reports of rows.
pub open spec fn row_gauges(list: Seq<Row>, gauge: RttGauge) -> Seq<GaugeView> {
    list.map_values(|row: Row| row_gauge(row, gauge))
}

impl TcpRttSnapshot {
    /// One report for every prefix and nexthop.
    pub fn get_samples(&self, gauge: RttGauge) -> (r: Vec<GaugeSample>)
        ensures
            gauge_views(r@) == row_gauges(rows(self.windows.entries@), gauge),
    {
        let ghost s = self.windows.entries@;
        let mut out: Vec<GaugeSample> = Vec::new();
        let mut i: usize = 0;
        assert(gauge_views(out@) =~= row_gauges(rows(s.take(0)), gauge));
        while i < self.windows.entries.len()
            invariant
                i <= s.len(),
                s == self.windows.entries@,
                gauge_views(out@) == row_gauges(rows(s.take(i as int)), gauge),
            decreases s.len() - i,
        {
            let nlri = self.windows.entries[i].0;
            let table = &self.windows.entries[i].1;
            let ghost before = gauge_views(out@);
            let ghost more = row_gauges(nexthop_rows(nlri, table.entries@), gauge);
            let mut k: usize = 0;
            assert(gauge_views(out@) =~= before + more.take(0));
            while k < table.entries.len()
                invariant
                    k <= table.entries@.len(),
                    more == row_gauges(nexthop_rows(nlri, table.entries@), gauge),
                    gauge_views(out@) == before + more.take(k as int),
                decreases table.entries@.len() - k,
            {
                let ghost so_far = out@;
                let sample = GaugeSample {
                    nlri: nlri.to_text(),
                    nexthop: table.entries[k].0.to_text(),
                    value: gauge.extract(&table.entries[k].1),
                };
                out.push(sample);
                proof {
                    assert(gauge_views(out@) =~= gauge_views(so_far).push(sample@));
                    assert(more[k as int] == row_gauge(
                        nexthop_rows(nlri, table.entries@)[k as int],
                        gauge,
                    ));
                    assert(before + more.take(k + 1) =~= (before + more.take(k as int)).push(
                        more[k as int],
                    ));
                }
                k += 1;
            }
            proof {
                assert(more.take(more.len() as int) =~= more);
                assert(s.take(i + 1).drop_last() =~= s.take(i as int));
                assert(row_gauges(rows(s.take(i + 1)), gauge) =~= before + more);
            }
            i += 1;
        }
        assert(s.take(s.len() as int) =~= s);
        out
    }
}

/// The clock did not tell the time.
#[derive(Clone, Copy, Debug, PartialEq, Eq, Structural)]
pub enum ClockError {
    /// It could not be read.
    Unreadable,
    /// It showed a time before its own beginning.
    Negative,
}

/// What a reading of the clock is worth.
pub open spec fn clock_time(reading: Option<i64>) -> Result<u64, ClockError> {
    match reading {
        Some(ns) => if ns < 0 {
            Err(ClockError::Negative)
        } else {
            Ok(ns as u64)
        },
        None => Err(ClockError::Unreadable),
    }
}

/// The time that a reading of the clock shows, in nanoseconds.
pub fn time_of_reading(reading: Option<i64>) -> (r: Result<u64, ClockError>)
    ensures
        r == clock_time(reading),
{
    match reading {
        Some(ns) => {
            if ns < 0 {
                Err(ClockError::Negative)
            } else {
                Ok(ns as u64)
            }
        },
        None => Err(ClockError::Unreadable),
    }
}

/// `nix::time::clock_gettime` reads the monotonic clock, which is the one that
/// eBPF programs take their times from; `None` where it fails. Nothing is said
/// of what it shows, which `num_nanoseconds` can express for 292 years after the
/// machine was started.
#[verifier::external_body]
fn nix_monotonic_ns() -> (r: Option<i64>) {
    match nix::time::clock_gettime(nix::time::ClockId::CLOCK_MONOTONIC) {
        Ok(time) => Some(nix::sys::time::TimeValLike::num_nanoseconds(&time)),
        Err(_) => None,
    }
}

/// The time on the monotonic clock, in nanoseconds.
pub fn monotonic_now_ns() -> (r: Result<u64, ClockError>)
    ensures
        exists|reading: Option<i64>| r == #[trigger] clock_time(reading),
{
    time_of_reading(nix_monotonic_ns())
}

/// Why a measurement was not taken in.
#[derive(Clone, Copy, Debug, PartialEq, Eq, Structural)]
pub enum ObserveError {
    Clock(ClockError),
    Nlri(NlriError),
}

/// The outcome of an event that arrives at the time that the clock has told, and
/// the samples after it.
pub open spec fn observed_at(
    tables: Map<Nlri, SampleTable>,
    now: Result<u64, ClockError>,
    event: CTcpRttEvent,
) -> (Result<(), ObserveError>, Map<Nlri, SampleTable>) {
    match now {
        Ok(now_ns) => {
            let (r, after) = observed(tables, now_ns, event);
            match r {
                Ok(()) => (Ok(()), after),
                Err(e) => (Err(ObserveError::Nlri(e)), after),
            }
        },
        Err(e) => (Err(ObserveError::Clock(e)), tables),
    }
}

/// Gathers measurements as they come in.
#[derive(Clone, Debug)]
pub struct TcpRttAggregator {
    pub state: TcpRttAggregatorState,
}

impl TcpRttAggregator {
    /// An aggregator without samples.
    pub fn new() -> (r: TcpRttAggregator)
        ensures
            r.state.wf(),
            r.state@ == Map::<Nlri, SampleTable>::empty(),
    {
        TcpRttAggregator { state: TcpRttAggregatorState::new() }
    }

    /// Takes in the measurement of an event that arrives now: the outcome is that
    /// of [`TcpRttAggregator::observe_at`] for what the clock tells.
    pub fn observe(&mut self, event: CTcpRttEvent) -> (r: Result<(), ObserveError>)
        requires
            old(self).state.wf(),
        ensures
            final(self).state.wf(),
            exists|now: Result<u64, ClockError>|
                (r, final(self).state@) == #[trigger] observed_at(old(self).state@, now, event),
    {
        self.observe_at(monotonic_now_ns(), event)
    }

    /// Takes in the measurement of an event that arrives at the time that the
    /// clock has told. Where it has told none, its error is handed on and nothing
    /// changes.
    pub fn observe_at(&mut self, now: Result<u64, ClockError>, event: CTcpRttEvent) -> (r: Result<
        (),
        ObserveError,
    >)
        requires
            old(self).state.wf(),
        ensures
            final(self).state.wf(),
            (r, final(self).state@) == observed_at(old(self).state@, now, event),
    {
        let now_ns: u64 = match now {
            Ok(now_ns) => now_ns,
            Err(e) => {
                return Err(ObserveError::Clock(e));
            },
        };
        match self.state.observe(now_ns, event) {
            Ok(()) => Ok(()),
            Err(e) => Err(ObserveError::Nlri(e)),
        }
    }

    /// The summaries of the samples that are in the window now.
    pub fn snapshot(&mut self) -> (r: Result<TcpRttSnapshot, ClockError>)
        requires
            old(self).state.wf(),
        ensures
            final(self).state.wf(),
            match r {
                Err(_) => final(self).state@ == old(self).state@,
                Ok(snapshot) => snapshot.wf() && exists|now: u64|
                    final(self).state@ == #[trigger] pruned(old(self).state@, now) && snapshot@
                        == snapshot_of(pruned(old(self).state@, now)),
            },
    {
        self.snapshot_at(monotonic_now_ns())
    }

    /// The summaries of the samples that are in the window at the time that the
    /// clock has told. Where it has told none, its error is handed on and nothing
    /// changes.
    pub fn snapshot_at(&mut self, now: Result<u64, ClockError>) -> (r: Result<
        TcpRttSnapshot,
        ClockError,
    >)
        requires
            old(self).state.wf(),
        ensures
            final(self).state.wf(),
            match now {
                Ok(now_ns) => {
                    &&& r is Ok
                    &&& r->Ok_0.wf()
                    &&& r->Ok_0@ == snapshot_of(pruned(old(self).state@, now_ns))
                    &&& final(self).state@ == pruned(old(self).state@, now_ns)
                },
                Err(e) => {
                    &&& r is Err
                    &&& r->Err_0 == e
                    &&& final(self).state@ == old(self).state@
                },
            },
    {
        match now {
            Ok(now_ns) => Ok(self.state.snapshot(now_ns)),
            Err(e) => Err(e),
        }
    }
}

/// Every sample that a pruned table holds is fresh, and pruning once more at the
/// same time changes nothing.
pub proof fn law_prune_idempotent(tables: Map<Nlri, SampleTable>, now: u64)
    ensures
        forall|nlri: Nlri, nexthop: Nexthop, i: int|
            pruned(tables, now).dom().contains(nlri) && pruned(
                tables,
                now,
            )[nlri].dom().contains(nexthop) && 0 <= i < pruned(tables, now)[nlri][nexthop].len()
                ==> fresh(#[trigger] pruned(tables, now)[nlri][nexthop][i], now),
        pruned(pruned(tables, now), now) == pruned(tables, now),
{
    let p = pruned(tables, now);
    let pred = |s: TcpRttSample| fresh(s, now);
    assert forall|s: Seq<TcpRttSample>| #[trigger] kept(kept(s, now), now) == kept(s, now) by {
        lemma_filter_twice(s, pred);
    }
    assert forall|nlri: Nlri, nexthop: Nexthop, i: int|
        p.dom().contains(nlri) && p[nlri].dom().contains(nexthop) && 0 <= i
            < p[nlri][nexthop].len() implies fresh(#[trigger] p[nlri][nexthop][i], now) by {
        tables[nlri][nexthop].lemma_filter_pred(pred, i);
    }
    let q = pruned(p, now);
    assert forall|nlri: Nlri| p.dom().contains(nlri) implies #[trigger] pruned_nexthops(
        p[nlri],
        now,
    ) == p[nlri] by {
        let t = p[nlri];
        assert forall|h: Nexthop| #[trigger] t.dom().contains(h) implies kept(t[h], now) == t[h] by {
            assert(t[h] == kept(tables[nlri][h], now));
        }
        assert(pruned_nexthops(t, now) =~= t);
    }
    assert forall|nlri: Nlri| p.dom().contains(nlri) implies #[trigger] any_kept(
        p[nlri],
        now,
    ) by {
        let h = choose|h: Nexthop|
            tables[nlri].dom().contains(h) && (#[trigger] kept(tables[nlri][h], now)).len() > 0;
        assert(p[nlri].dom().contains(h));
        assert(p[nlri][h] == kept(tables[nlri][h], now));
        assert(kept(p[nlri][h], now).len() > 0);
    }
    assert(q =~= p);
}

proof fn lemma_filter_twice(s: Seq<TcpRttSample>, pred: spec_fn(TcpRttSample) -> bool)
    ensures
        s.filter(pred).filter(pred) == s.filter(pred),
    decreases s.len(),
{
    reveal(Seq::filter);
    if s.len() > 0 {
        let t = s.drop_last();
        lemma_filter_twice(t, pred);
        if pred(s.last()) {
            assert(t.filter(pred).push(s.last()).drop_last() =~= t.filter(pred));
        }
    }
}

proof fn lemma_kept_later(s: Seq<TcpRttSample>, a: u64, b: u64)
    requires
        a <= b,
    ensures
        kept(kept(s, a), b) == kept(s, b),
    decreases s.len(),
{
    reveal(Seq::filter);
    if s.len() > 0 {
        let t = s.drop_last();
        lemma_kept_later(t, a, b);
        if fresh(s.last(), a) {
            assert(kept(t, a).push(s.last()).drop_last() =~= kept(t, a));
        }
    }
}

/// Pruning on the way changes nothing: what is in the window later is the same,
/// however often it was pruned before.
pub proof fn law_prune_composes(tables: Map<Nlri, SampleTable>, a: u64, b: u64)
    requires
        a <= b,
    ensures
        pruned(pruned(tables, a), b) == pruned(tables, b),
{
    let p = pruned(tables, a);
    let want = pruned(tables, b);
    let got = pruned(p, b);
    assert forall|s: Seq<TcpRttSample>| #[trigger] kept(kept(s, a), b) == kept(s, b) by {
        lemma_kept_later(s, a, b);
    }
    assert forall|s: Seq<TcpRttSample>| (#[trigger] kept(s, b)).len() > 0 implies kept(
        s,
        a,
    ).len() > 0 by {
        lemma_kept_later(s, a, b);
        reveal(Seq::filter);
    }
    assert forall|n: Nlri| #[trigger] got.dom().contains(n) <==> want.dom().contains(n) by {
        if got.dom().contains(n) {
            let h = choose|h: Nexthop|
                p[n].dom().contains(h) && (#[trigger] kept(p[n][h], b)).len() > 0;
            assert(p[n][h] == kept(tables[n][h], a));
            assert(kept(tables[n][h], b).len() > 0);
        }
        if want.dom().contains(n) {
            let h = choose|h: Nexthop|
                tables[n].dom().contains(h) && (#[trigger] kept(tables[n][h], b)).len() > 0;
            assert(kept(tables[n][h], a).len() > 0);
            assert(p.dom().contains(n));
            assert(p[n].dom().contains(h));
            assert(p[n][h] == kept(tables[n][h], a));
            assert(kept(p[n][h], b).len() > 0);
        }
    }
    assert forall|n: Nlri| got.dom().contains(n) implies #[trigger] got[n] == want[n] by {
        assert(got[n] =~= want[n]) by {
            assert forall|h: Nexthop| #[trigger] got[n].dom().contains(h) <==> want[
                n
            ].dom().contains(h) by {
                if tables[n].dom().contains(h) {
                    assert(kept(kept(tables[n][h], a), b) == kept(tables[n][h], b));
                    if kept(tables[n][h], b).len() > 0 {
                        assert(kept(tables[n][h], a).len() > 0);
                    }
                }
            }
            assert forall|h: Nexthop| got[n].dom().contains(h) implies #[trigger] got[n][h]
                == want[n][h] by {
                assert(p[n][h] == kept(tables[n][h], a));
            }
        }
    }
    assert(got =~= want);
}

/// After a measurement has been taken in, all samples are within the window.
pub proof fn law_observed_all_fresh(tables: Map<Nlri, SampleTable>, now: u64, event: CTcpRttEvent)
    requires
        fresh(sample_of(event), now),
    ensures
        forall|nlri: Nlri, nexthop: Nexthop, i: int|
            observed(tables, now, event).1.dom().contains(nlri) && observed(
                tables,
                now,
                event,
            ).1[nlri].dom().contains(nexthop) && 0 <= i < observed(
                tables,
                now,
                event,
            ).1[nlri][nexthop].len() ==> fresh(
                #[trigger] observed(tables, now, event).1[nlri][nexthop][i],
                now,
            ),
{
    law_prune_idempotent(tables, now);
    let p = pruned(tables, now);
    let o = observed(tables, now, event).1;
    assert forall|nlri: Nlri, nexthop: Nexthop, i: int|
        o.dom().contains(nlri) && o[nlri].dom().contains(nexthop) && 0 <= i
            < o[nlri][nexthop].len() implies fresh(#[trigger] o[nlri][nexthop][i], now) by {
        if p.dom().contains(nlri) && p[nlri].dom().contains(nexthop) && i
            < p[nlri][nexthop].len() {
            assert(o[nlri][nexthop][i] == p[nlri][nexthop][i]);
        }
    }
}

proof fn lemma_rows(list: Seq<(Nlri, AssocMap<Nexthop, TcpRttWindow>)>)
    ensures
        forall|r: int|
            0 <= r < rows(list).len() ==> exists|i: int, k: int|
                0 <= i < list.len() && 0 <= k < list[i].1.entries@.len() && (
                #[trigger] rows(list)[r]).nlri == list[i].0 && rows(list)[r].nexthop
                    == list[i].1.entries@[k].0 && rows(list)[r].window == (
                #[trigger] list[i].1.entries@[k]).1,
        forall|i: int, k: int|
            0 <= i < list.len() && 0 <= k < list[i].1.entries@.len() ==> rows(list).contains(
                Row {
                    nlri: list[i].0,
                    nexthop: (#[trigger] list[i].1.entries@[k]).0,
                    window: list[i].1.entries@[k].1,
                },
            ),
    decreases list.len(),
{
    if list.len() > 0 {
        let t = list.drop_last();
        let n = list.len() - 1;
        let last = nexthop_rows(list[n].0, list[n].1.entries@);
        lemma_rows(t);
        let all = rows(list);
        assert(all == rows(t) + last);
        assert forall|r: int| 0 <= r < all.len() implies exists|i: int, k: int|
            0 <= i < list.len() && 0 <= k < list[i].1.entries@.len() && (
            #[trigger] all[r]).nlri == list[i].0 && all[r].nexthop == list[i].1.entries@[k].0
                && all[r].window == (#[trigger] list[i].1.entries@[k]).1 by {
            if r < rows(t).len() {
                assert(all[r] == rows(t)[r]);
                let (i, k) = choose|i: int, k: int|
                    0 <= i < t.len() && 0 <= k < t[i].1.entries@.len() && rows(t)[r].nlri
                        == t[i].0 && rows(t)[r].nexthop == t[i].1.entries@[k].0
                        && rows(t)[r].window == (#[trigger] t[i].1.entries@[k]).1;
                assert(list[i].1.entries@[k] == t[i].1.entries@[k]);
            } else {
                let k = r - rows(t).len();
                assert(all[r] == last[k]);
                assert(list[n].1.entries@[k].1 == all[r].window);
            }
        }
        assert forall|i: int, k: int|
            0 <= i < list.len() && 0 <= k < list[i].1.entries@.len() implies all.contains(
            Row {
                nlri: list[i].0,
                nexthop: (#[trigger] list[i].1.entries@[k]).0,
                window: list[i].1.entries@[k].1,
            },
        ) by {
            let row = Row {
                nlri: list[i].0,
                nexthop: list[i].1.entries@[k].0,
                window: list[i].1.entries@[k].1,
            };
            if i < n {
                assert(t[i].1.entries@[k] == list[i].1.entries@[k]);
                assert(rows(t).contains(row));
                let r = choose|r: int| 0 <= r < rows(t).len() && rows(t)[r] == row;
                assert(all[r] == row);
            } else {
                assert(last[k] == row);
                assert(all[rows(t).len() + k] == row);
            }
        }
    }
}

/// The reports are about exactly the prefixes and nexthops of the snapshot, with
/// the summaries that it has of them.
pub proof fn law_rows_are_the_windows(snapshot: TcpRttSnapshot)
    requires
        snapshot.wf(),
    ensures
        forall|row: Row| #[trigger]
            rows(snapshot.windows.entries@).contains(row) <==> snapshot@.dom().contains(row.nlri)
                && snapshot@[row.nlri].dom().contains(row.nexthop)
                && snapshot@[row.nlri][row.nexthop] == row.window,
{
    let s = snapshot.windows.entries@;
    lemma_map_of(s);
    lemma_rows(s);
    assert forall|row: Row| #[trigger] rows(s).contains(row) <==> snapshot@.dom().contains(row.nlri)
        && snapshot@[row.nlri].dom().contains(row.nexthop) && snapshot@[row.nlri][row.nexthop]
        == row.window by {
        if rows(s).contains(row) {
            let r = choose|r: int| 0 <= r < rows(s).len() && rows(s)[r] == row;
            let (i, k) = choose|i: int, k: int|
                0 <= i < s.len() && 0 <= k < s[i].1.entries@.len() && rows(s)[r].nlri == s[i].0
                    && rows(s)[r].nexthop == s[i].1.entries@[k].0 && rows(s)[r].window == (
                #[trigger] s[i].1.entries@[k]).1;
            assert(has_key(s, s[i].0));
            assert(map_of(s)[s[i].0] == s[i].1);
            lemma_map_of(s[i].1.entries@);
            assert(has_key(s[i].1.entries@, s[i].1.entries@[k].0));
            assert(s[i].1@[s[i].1.entries@[k].0] == s[i].1.entries@[k].1);
        }
        if snapshot@.dom().contains(row.nlri) && snapshot@[row.nlri].dom().contains(row.nexthop)
            && snapshot@[row.nlri][row.nexthop] == row.window {
            assert(has_key(s, row.nlri));
            let i = choose|i: int| 0 <= i < s.len() && (#[trigger] s[i]).0 == row.nlri;
            assert(map_of(s)[s[i].0] == s[i].1);
            let e = s[i].1.entries@;
            lemma_map_of(e);
            assert(has_key(e, row.nexthop));
            let k = choose|k: int| 0 <= k < e.len() && (#[trigger] e[k]).0 == row.nexthop;
            assert(s[i].1@[e[k].0] == e[k].1);
            assert(s[i].1.entries@[k] == e[k]);
        }
    }
}

/// Only age decides what stays: pruning keeps the samples of a nexthop that are ten
/// seconds old or younger, whatever they measured, in their order, and no others;
/// the nexthop stays as long as there is one.
pub proof fn law_only_age_decides(
    tables: Map<Nlri, SampleTable>,
    now: u64,
    nlri: Nlri,
    nexthop: Nexthop,
)
    requires
        tables.dom().contains(nlri),
        tables[nlri].dom().contains(nexthop),
    ensures
        ({
            let all = tables[nlri][nexthop];
            let young = all.filter(|s: TcpRttSample| now - s.ts_ns <= 10_000_000_000);
            let there = pruned(tables, now).dom().contains(nlri) && pruned(
                tables,
                now,
            )[nlri].dom().contains(nexthop);
            &&& there <==> young.len() > 0
            &&& there <==> exists|i: int|
                0 <= i < all.len() && now - (#[trigger] all[i]).ts_ns <= 10_000_000_000
            &&& there ==> pruned(tables, now)[nlri][nexthop] == young
            &&& forall|i: int|
                0 <= i < all.len() && now - (#[trigger] all[i]).ts_ns <= 10_000_000_000
                    ==> pruned(tables, now)[nlri][nexthop].contains(all[i])
        }),
{
    let all = tables[nlri][nexthop];
    let f = |s: TcpRttSample| fresh(s, now);
    let g = |s: TcpRttSample| now - s.ts_ns <= 10_000_000_000;
    assert(f =~= g);
    let young = all.filter(g);
    assert(kept(all, now) == young);
    all.filter_lemma(g);
    assert forall|i: int|
        0 <= i < all.len() && now - (#[trigger] all[i]).ts_ns <= 10_000_000_000 implies young.contains(
        all[i],
    ) by {
        assert(g(all[i]));
    }
    if young.len() > 0 {
        lemma_filtered_is_there(all, g, 0);
        assert(young.contains(young[0]));
        let k = choose|k: int| 0 <= k < all.len() && all[k] == young[0];
        assert(g(young[0]));
        assert(now - all[k].ts_ns <= 10_000_000_000);
    } else if exists|i: int| 0 <= i < all.len() && now - (#[trigger] all[i]).ts_ns <= 10_000_000_000 {
        let i = choose|i: int|
            0 <= i < all.len() && now - (#[trigger] all[i]).ts_ns <= 10_000_000_000;
        assert(young.contains(all[i]));
    }
}

proof fn lemma_filtered_is_there(
    s: Seq<TcpRttSample>,
    pred: spec_fn(TcpRttSample) -> bool,
    i: int,
)
    requires
        0 <= i < s.filter(pred).len(),
    ensures
        s.contains(s.filter(pred)[i]),
        pred(s.filter(pred)[i]),
    decreases s.len(),
{
    reveal(Seq::filter);
    if s.len() > 0 {
        let t = s.drop_last();
        if i < t.filter(pred).len() {
            lemma_filtered_is_there(t, pred, i);
            let x = t.filter(pred)[i];
            let k = choose|k: int| 0 <= k < t.len() && t[k] == x;
            assert(s[k] == x);
        } else {
            assert(s[s.len() - 1] == s.filter(pred)[i]);
        }
    }
}

/// Pruning brings in no prefix and no nexthop, and what is left of either has
/// samples.
pub proof fn law_pruning_adds_nothing(
    tables: Map<Nlri, SampleTable>,
    now: u64,
    nlri: Nlri,
    nexthop: Nexthop,
)
    ensures
        pruned(tables, now).dom().contains(nlri) ==> tables.dom().contains(nlri),
        pruned(tables, now).dom().contains(nlri) && pruned(tables, now)[nlri].dom().contains(nexthop)
            ==> tables[nlri].dom().contains(nexthop) && pruned(tables, now)[nlri][nexthop].len() > 0,
        pruned(tables, now).dom().contains(nlri) ==> exists|h: Nexthop| #[trigger]
            pruned(tables, now)[nlri].dom().contains(h),
{
    if pruned(tables, now).dom().contains(nlri) {
        let h = choose|h: Nexthop|
            tables[nlri].dom().contains(h) && (#[trigger] kept(tables[nlri][h], now)).len() > 0;
        assert(pruned(tables, now)[nlri].dom().contains(h));
    }
}

/// An event that is ten seconds old or younger, of a prefix that makes sense, is
/// taken in whatever it measured: it is the last sample of its prefix and nexthop,
/// behind those that are young enough to stay. Other nexthops and prefixes have
/// what pruning leaves them.
pub proof fn law_young_event_is_taken_in(
    tables: Map<Nlri, SampleTable>,
    now: u64,
    event: CTcpRttEvent,
    nlri: Nlri,
)
    requires
        now - event.ts_ns <= 10_000_000_000,
        net_of(event.matched_nlri.prefix_len, event.matched_nlri.address.bits() as u128) == Ok::<
            Nlri,
            NlriError,
        >(nlri),
    ensures
        observed(tables, now, event).0 is Ok,
        ({
            let nexthop = addr_of_bits(event.nexthop.bits() as u128);
            let before = if tables.dom().contains(nlri) && tables[nlri].dom().contains(nexthop) {
                tables[nlri][nexthop]
            } else {
                Seq::empty()
            };
            let after = observed(tables, now, event).1;
            &&& after.dom().contains(nlri)
            &&& after[nlri].dom().contains(nexthop)
            &&& after[nlri][nexthop].len() > 0
            &&& after[nlri][nexthop].last().ts_ns == event.ts_ns
            &&& after[nlri][nexthop].last().srtt_us == event.srtt_us
            &&& after[nlri][nexthop].last().rtt_min == event.rtt_min
            &&& after[nlri][nexthop].drop_last() == before.filter(
                |s: TcpRttSample| now - s.ts_ns <= 10_000_000_000,
            )
            &&& forall|h: Nexthop|
                h != nexthop ==> (#[trigger] after[nlri].dom().contains(h) <==> pruned(
                    tables,
                    now,
                ).dom().contains(nlri) && pruned(tables, now)[nlri].dom().contains(h))
            &&& forall|h: Nexthop|
                h != nexthop && #[trigger] after[nlri].dom().contains(h) ==> after[nlri][h]
                    == pruned(tables, now)[nlri][h]
            &&& after.remove(nlri) == pruned(tables, now).remove(nlri)
        }),
{
    let nexthop = addr_of_bits(event.nexthop.bits() as u128);
    let after = observed(tables, now, event).1;
    let g = |s: TcpRttSample| now - s.ts_ns <= 10_000_000_000;
    let empty = Seq::<TcpRttSample>::empty();
    assert(empty.filter(g) =~= empty) by {
        reveal(Seq::filter);
    }
    law_pruning_adds_nothing(tables, now, nlri, nexthop);
    if tables.dom().contains(nlri) && tables[nlri].dom().contains(nexthop) {
        law_only_age_decides(tables, now, nlri, nexthop);
        let young = tables[nlri][nexthop].filter(g);
        if young.len() == 0 {
            assert(young =~= empty);
        }
        assert(after[nlri][nexthop].drop_last() =~= young);
    } else {
        assert(after[nlri][nexthop].drop_last() =~= empty);
    }
    assert(after.remove(nlri) =~= pruned(tables, now).remove(nlri));
}

/// An event that is older than ten seconds leaves everything as it was; one whose
/// prefix makes no sense is refused, and pruning is all that it leads to.
pub proof fn law_other_events_add_nothing(
    tables: Map<Nlri, SampleTable>,
    now: u64,
    event: CTcpRttEvent,
)
    ensures
        now - event.ts_ns > 10_000_000_000 ==> observed(tables, now, event).0 is Ok && observed(
            tables,
            now,
            event,
        ).1 == tables,
        now - event.ts_ns <= 10_000_000_000 && net_of(
            event.matched_nlri.prefix_len,
            event.matched_nlri.address.bits() as u128,
        ) is Err ==> observed(tables, now, event).0 is Err && observed(tables, now, event).0->Err_0
            == net_of(
            event.matched_nlri.prefix_len,
            event.matched_nlri.address.bits() as u128,
        )->Err_0 && observed(tables, now, event).1 == pruned(tables, now),
{
}

/// The sum of the times: that of one sample is its time, and sums of parts add up.
pub proof fn law_times_add_up(s: Seq<TcpRttSample>, t: Seq<TcpRttSample>, x: TcpRttSample)
    ensures
        srtt_sum(Seq::empty()) == 0,
        srtt_sum(seq![x]) == x.srtt_us,
        srtt_sum(s + t) == srtt_sum(s) + srtt_sum(t),
    decreases t.len(),
{
    assert(seq![x].drop_last() =~= Seq::empty());
    if t.len() == 0 {
        assert(s + t =~= s);
    } else {
        law_times_add_up(s, t.drop_last(), x);
        assert((s + t).drop_last() =~= s + t.drop_last());
    }
}

/// A window tells how many samples there are, the mean of their times rounded down,
/// the largest time and the smallest of the minima, both of which some sample has;
/// without samples all of them are zero.
pub proof fn law_window_sums_up(samples: Seq<TcpRttSample>)
    requires
        samples.len() <= usize::MAX,
    ensures
        window_of(samples).samples == samples.len(),
        samples.len() > 0 ==> window_of(samples).avg_srtt_us * samples.len() <= srtt_sum(samples) < (
        window_of(samples).avg_srtt_us + 1) * samples.len(),
        forall|i: int|
            0 <= i < samples.len() ==> (#[trigger] samples[i]).srtt_us <= window_of(
                samples,
            ).max_srtt_us && window_of(samples).min_rtt_min <= samples[i].rtt_min,
        samples.len() > 0 ==> exists|i: int|
            0 <= i < samples.len() && (#[trigger] samples[i]).srtt_us == window_of(
                samples,
            ).max_srtt_us,
        samples.len() > 0 ==> exists|i: int|
            0 <= i < samples.len() && (#[trigger] samples[i]).rtt_min == window_of(
                samples,
            ).min_rtt_min,
        samples.len() == 0 ==> window_of(samples) == (TcpRttWindow {
            samples: 0,
            avg_srtt_us: 0,
            max_srtt_us: 0,
            min_rtt_min: 0,
        }),
{
    law_window_bounds(samples);
    if samples.len() > 0 {
        lemma_extremes_attained(samples);
        let sum = srtt_sum(samples) as int;
        let n = samples.len() as int;
        let avg = sum / n;
        assert(avg * n <= sum && sum < (avg + 1) * n) by (nonlinear_arith)
            requires
                n > 0,
                avg == sum / n,
        ;
        assert(0 <= avg) by (nonlinear_arith)
            requires
                n > 0,
                sum >= 0,
                avg == sum / n,
        ;
        assert(window_of(samples).avg_srtt_us == avg);
    }
}

proof fn lemma_extremes_attained(samples: Seq<TcpRttSample>)
    requires
        samples.len() > 0,
    ensures
        exists|i: int|
            0 <= i < samples.len() && (#[trigger] samples[i]).srtt_us == srtt_max(samples),
        exists|i: int|
            0 <= i < samples.len() && (#[trigger] samples[i]).rtt_min == rtt_min_min(samples),
    decreases samples.len(),
{
    let t = samples.drop_last();
    let last = samples.len() - 1;
    assert(samples[last] == samples.last());
    if t.len() > 0 {
        lemma_extremes_attained(t);
        let i = choose|i: int| 0 <= i < t.len() && (#[trigger] t[i]).srtt_us == srtt_max(t);
        assert(samples[i] == t[i]);
        let j = choose|j: int| 0 <= j < t.len() && (#[trigger] t[j]).rtt_min == rtt_min_min(t);
        assert(samples[j] == t[j]);
    } else {
        assert(srtt_max(t) == 0);
        assert(samples[last].srtt_us == srtt_max(samples));
    }
}

/// A snapshot has a window for every nexthop of every prefix that has samples, and
/// for nothing else.
pub proof fn law_snapshot_covers_everything(tables: Map<Nlri, SampleTable>)
    ensures
        forall|nlri: Nlri| #[trigger]
            snapshot_of(tables).dom().contains(nlri) <==> tables.dom().contains(nlri),
        forall|nlri: Nlri, nexthop: Nexthop|
            tables.dom().contains(nlri) ==> (#[trigger] snapshot_of(tables)[nlri].dom().contains(
                nexthop,
            ) <==> tables[nlri].dom().contains(nexthop)),
        forall|nlri: Nlri, nexthop: Nexthop|
            tables.dom().contains(nlri) && tables[nlri].dom().contains(nexthop)
                ==> #[trigger] snapshot_of(tables)[nlri][nexthop] == window_of(
                tables[nlri][nexthop],
            ),
{
}

/// Each gauge shows the figure that it is named for.
pub proof fn law_gauges_show_their_figures(window: TcpRttWindow)
    ensures
        RttGauge::Samples.of(window) == window.samples,
        RttGauge::SrttAvg.of(window) == window.avg_srtt_us,
        RttGauge::SrttMax.of(window) == window.max_srtt_us,
        RttGauge::RttMinMin.of(window) == window.min_rtt_min,
{
}

/// The rows of a snapshot: one for each nexthop of a prefix, in its order, and the
/// rows of parts follow one another. A gauge has one value for each row, under the
/// prefix and the nexthop of the row.
pub proof fn law_rows_and_gauges(
    s: Seq<(Nlri, AssocMap<Nexthop, TcpRttWindow>)>,
    t: Seq<(Nlri, AssocMap<Nexthop, TcpRttWindow>)>,
    x: (Nlri, AssocMap<Nexthop, TcpRttWindow>),
    list: Seq<Row>,
    gauge: RttGauge,
)
    ensures
        rows(Seq::empty()).len() == 0,
        rows(seq![x]).len() == x.1.entries@.len(),
        forall|i: int|
            0 <= i < x.1.entries@.len() ==> #[trigger] rows(seq![x])[i] == (Row {
                nlri: x.0,
                nexthop: x.1.entries@[i].0,
                window: x.1.entries@[i].1,
            }),
        rows(s + t) == rows(s) + rows(t),
        row_gauges(list, gauge).len() == list.len(),
        forall|i: int|
            0 <= i < list.len() ==> (#[trigger] row_gauges(list, gauge)[i]).nlri == net_text(
                list[i].nlri,
            ) && row_gauges(list, gauge)[i].nexthop == addr_text(list[i].nexthop) && row_gauges(
                list,
                gauge,
            )[i].value == gauge.of(list[i].window),
    decreases t.len(),
{
    assert(seq![x].drop_last() =~= Seq::empty());
    assert(rows(Seq::empty()) =~= Seq::empty());
    assert(rows(seq![x]) =~= nexthop_rows(x.0, x.1.entries@));
    if t.len() == 0 {
        assert(s + t =~= s);
        assert(rows(s) + rows(t) =~= rows(s));
    } else {
        law_rows_and_gauges(s, t.drop_last(), x, list, gauge);
        assert((s + t).drop_last() =~= s + t.drop_last());
        assert(rows(s + t) =~= rows(s) + rows(t));
    }
}

/// Every reading of the clock that is not negative is a time, also zero and the
/// largest one; without a time an event is refused and nothing changes.
pub proof fn law_clock_readings(
    ns: i64,
    tables: Map<Nlri, SampleTable>,
    event: CTcpRttEvent,
    now: u64,
    error: ClockError,
)
    ensures
        ns >= 0 ==> clock_time(Some(ns)) is Ok && clock_time(Some(ns))->Ok_0 == ns,
        ns < 0 ==> clock_time(Some(ns)) == Err::<u64, ClockError>(ClockError::Negative),
        clock_time(None) == Err::<u64, ClockError>(ClockError::Unreadable),
        observed_at(tables, Err(error), event).0 == Err::<(), ObserveError>(
            ObserveError::Clock(error),
        ),
        observed_at(tables, Err(error), event).1 == tables,
        observed_at(tables, Ok(now), event).1 == observed(tables, now, event).1,
        observed_at(tables, Ok(now), event).0 is Ok <==> observed(tables, now, event).0 is Ok,
        observed(tables, now, event).0 is Err ==> observed_at(tables, Ok(now), event).0 == Err::<
            (),
            ObserveError,
        >(ObserveError::Nlri(observed(tables, now, event).0->Err_0)),
{
}

/// What is seen of the samples is what is stored: those of each prefix, by nexthop.
pub proof fn law_state_shows_its_samples(state: TcpRttAggregatorState, i: int, j: int)
    requires
        state.wf(),
        0 <= i < state.samples.entries@.len(),
        0 <= j < state.samples.entries@[i].1.entries@.len(),
    ensures
        ({
            let (nlri, table) = state.samples.entries@[i];
            let (nexthop, samples) = table.entries@[j];
            &&& state@.dom().contains(nlri)
            &&& state@[nlri].dom().contains(nexthop)
            &&& state@[nlri][nexthop] == samples@
        }),
{
    law_pairs_are_the_map(state.samples.entries@);
    let x = state.samples.entries@[i];
    assert(x.1.wf());
    law_pairs_are_the_map(x.1.entries@);
    let y = x.1.entries@[j];
    assert(map_of(x.1.entries@)[y.0] == y.1);
    assert(map_of(state.samples.entries@)[x.0] == x.1);
}

/// What is seen of a snapshot is what is stored: the windows of each prefix, by
/// nexthop.
pub proof fn law_snapshot_shows_its_windows(snapshot: TcpRttSnapshot, i: int, j: int)
    requires
        snapshot.wf(),
        0 <= i < snapshot.windows.entries@.len(),
        0 <= j < snapshot.windows.entries@[i].1.entries@.len(),
    ensures
        ({
            let (nlri, table) = snapshot.windows.entries@[i];
            let (nexthop, window) = table.entries@[j];
            &&& snapshot@.dom().contains(nlri)
            &&& snapshot@[nlri].dom().contains(nexthop)
            &&& snapshot@[nlri][nexthop] == window
        }),
{
    law_pairs_are_the_map(snapshot.windows.entries@);
    let x = snapshot.windows.entries@[i];
    assert(x.1.wf());
    law_pairs_are_the_map(x.1.entries@);
    let y = x.1.entries@[j];
    assert(map_of(x.1.entries@)[y.0] == y.1);
    assert(map_of(snapshot.windows.entries@)[x.0] == x.1);
}

} // verus!
