//! Projected online gradient descent over the weights of nexthops, after
//! <https://arxiv.org/pdf/1912.13213>.
//!
//! Weights are fractions of one. The library keeps them, decides when they start
//! anew and what every nexthop costs, and shares out the denominator; a weight
//! itself is carried as the bits of a double-precision number.

use vstd::prelude::*;

use crate::assoc::{
    distinct_keys, has_key, law_pairs_are_the_map, lemma_map_len, lemma_map_of, map_of, AssocMap,
};
use crate::bgp::{Nexthop, Nlri};
use crate::bpf_abi::{MAX_NEXTHOPS, WEIGHT_DENOMINATOR};
use crate::fib::{fib_error, some_zero, weight_sum, WeightedNexthop};
use crate::net::{IpAddr, IpNet};
use crate::rtt_aggregation::{TcpRttSnapshot, TcpRttWindow};

verus! {

/// What a nexthop costs: what it takes, and how much of that is congestion. Both
/// are in microseconds.
#[derive(Clone, Copy, Debug, PartialEq, Eq, Structural)]
pub struct Cost {
    pub latency: u64,
    pub congestion: u64,
}

/// The cost that a window shows: the mean time, and by how much it exceeds the
/// smallest one.
pub open spec fn cost_of(win: TcpRttWindow) -> Cost {
    Cost {
        latency: win.avg_srtt_us,
        congestion: if win.avg_srtt_us >= win.min_rtt_min {
            (win.avg_srtt_us - win.min_rtt_min) as u64
        } else {
            0
        },
    }
}

/// The cost that a window shows. The loss is the mean cost weighted by the
/// weights, so that this is its gradient.
pub fn gradient(win: &TcpRttWindow) -> (r: Cost)
    ensures
        r == cost_of(*win),
        r.latency == win.avg_srtt_us,
        win.avg_srtt_us >= win.min_rtt_min ==> r.congestion + win.min_rtt_min == win.avg_srtt_us,
        win.avg_srtt_us < win.min_rtt_min ==> r.congestion == 0,
{
    Cost {
        latency: win.avg_srtt_us,
        congestion: win.avg_srtt_us.saturating_sub(win.min_rtt_min as u64),
    }
}

/// The cost of a nexthop for a prefix, where it has been measured.
pub open spec fn cost_at(
    windows: Map<Nlri, Map<Nexthop, TcpRttWindow>>,
    nlri: Nlri,
    nexthop: Nexthop,
) -> Option<Cost> {
    if windows.dom().contains(nlri) && windows[nlri].dom().contains(nexthop) {
        Some(cost_of(windows[nlri][nexthop]))
    } else {
        None
    }
}

/// The elements of `s`, each where it first stands.
pub open spec fn firsts(s: Seq<Nexthop>) -> Seq<Nexthop>
    decreases s.len(),
{
    if s.len() == 0 {
        s
    } else if firsts(s.drop_last()).contains(s.last()) {
        firsts(s.drop_last())
    } else {
        firsts(s.drop_last()).push(s.last())
    }
}

/// The weights of a prefix, none where it has none.
pub open spec fn weights_of(
    table: Map<Nlri, Map<Nexthop, u64>>,
    nlri: Nlri,
) -> Map<Nexthop, u64> {
    if table.dom().contains(nlri) {
        table[nlri]
    } else {
        Map::empty()
    }
}

/// The weights do not belong to these nexthops: they are not as many, or some
/// nexthop has none.
pub open spec fn outdated(weights: Map<Nexthop, u64>, nexthops: Seq<Nexthop>) -> bool {
    weights.dom().len() != nexthops.len() || exists|i: int|
        0 <= i < nexthops.len() && !weights.dom().contains(#[trigger] nexthops[i])
}

/// What one step of the descent starts from.
#[derive(Clone, Debug)]
pub struct StepPlan {
    /// The weights so far; `None` where they start anew, as one over the number
    /// of nexthops each.
    pub weights: Option<Vec<(IpAddr, u64)>>,
    /// The nexthops, each once.
    pub distinct: Vec<IpAddr>,
    /// The nexthops with their costs. A nexthop whose cost is unknown falls back
    /// to the smallest weight.
    pub costs: Vec<(IpAddr, Option<Cost>)>,
}

/// `plan` is what a step starts from.
pub open spec fn planned(
    plan: StepPlan,
    weights: Map<Nexthop, u64>,
    nexthops: Seq<Nexthop>,
    windows: Map<Nlri, Map<Nexthop, TcpRttWindow>>,
    nlri: Nlri,
) -> bool {
    &&& match plan.weights {
        None => outdated(weights, nexthops),
        Some(list) => !outdated(weights, nexthops) && distinct_keys(list@) && map_of(list@)
            == weights,
    }
    &&& plan.distinct@ == firsts(nexthops)
    &&& plan.costs@ == nexthops.map_values(|h: Nexthop| (h, cost_at(windows, nlri, h)))
}

/// The weights of all prefixes.
#[derive(Clone, Debug)]
pub struct Descent {
    pub weights: AssocMap<IpNet, AssocMap<IpAddr, u64>>,
}

impl View for Descent {
    type V = Map<Nlri, Map<Nexthop, u64>>;

    open spec fn view(&self) -> Map<Nlri, Map<Nexthop, u64>> {
        self.weights@.map_values(|m: AssocMap<IpAddr, u64>| m@)
    }
}

fn distinct_nexthops(nexthops: &Vec<IpAddr>) -> (r: Vec<IpAddr>)
    ensures
        r@ == firsts(nexthops@),
{
    let mut out: Vec<IpAddr> = Vec::new();
    let mut i: usize = 0;
    assert(nexthops@.take(0) =~= Seq::empty());
    while i < nexthops.len()
        invariant
            i <= nexthops@.len(),
            out@ == firsts(nexthops@.take(i as int)),
        decreases nexthops@.len() - i,
    {
        let nexthop = nexthops[i];
        assert(nexthops@.take(i + 1).drop_last() =~= nexthops@.take(i as int));
        let mut found: bool = false;
        let mut k: usize = 0;
        while k < out.len()
            invariant
                k <= out@.len(),
                found == exists|j: int| 0 <= j < k && #[trigger] out@[j] == nexthop,
            decreases out@.len() - k,
        {
            if out[k] == nexthop {
                found = true;
            }
            k += 1;
        }
        assert(found == out@.contains(nexthop));
        if !found {
            out.push(nexthop);
        }
        i += 1;
    }
    assert(nexthops@.take(nexthops@.len() as int) =~= nexthops@);
    out
}

fn known_cost(snapshot: &TcpRttSnapshot, nlri: IpNet, nexthop: IpAddr) -> (r: Option<Cost>)
    requires
        snapshot.wf(),
    ensures
        r == cost_at(snapshot@, nlri, nexthop),
{
    proof {
        lemma_map_of(snapshot.windows.entries@);
    }
    match snapshot.windows.position(&nlri) {
        Some(i) => {
            assert(snapshot.windows@[nlri] == snapshot.windows.entries@[i as int].1);
            match snapshot.windows.entries[i].1.get(&nexthop) {
                Some(win) => Some(gradient(win)),
                None => None,
            }
        },
        None => None,
    }
}

impl Descent {
    /// Every prefix and every nexthop is listed once.
    pub open spec fn wf(self) -> bool {
        &&& self.weights.wf()
        &&& forall|i: int|
            0 <= i < self.weights.entries@.len() ==> (#[trigger] self.weights.entries@[i]).1.wf()
    }

    /// No weights.
    pub fn new() -> (r: Descent)
        ensures
            r.wf(),
            r@ == Map::<Nlri, Map<Nexthop, u64>>::empty(),
    {
        let r = Descent { weights: AssocMap::new() };
        assert(r@ =~= Map::<Nlri, Map<Nexthop, u64>>::empty());
        r
    }

    /// The weights of a prefix that still belong to these nexthops.
    fn current(&self, nlri: IpNet, nexthops: &Vec<IpAddr>) -> (r: Option<Vec<(IpAddr, u64)>>)
        requires
            self.wf(),
            nexthops@.len() > 0,
        ensures
            match r {
                None => outdated(weights_of(self@, nlri), nexthops@),
                Some(list) => !outdated(weights_of(self@, nlri), nexthops@) && distinct_keys(list@)
                    && map_of(list@) == weights_of(self@, nlri),
            },
    {
        proof {
            lemma_map_of(self.weights.entries@);
        }
        let at = match self.weights.position(&nlri) {
            Some(at) => at,
            None => {
                assert(Map::<Nexthop, u64>::empty().dom() =~= Set::empty());
                return None;
            },
        };
        let table = &self.weights.entries[at].1;
        proof {
            assert(self.weights@[nlri] == self.weights.entries@[at as int].1);
            assert(weights_of(self@, nlri) == table@);
            lemma_map_len(table.entries@);
        }
        if table.entries.len() != nexthops.len() {
            return None;
        }
        let mut i: usize = 0;
        while i < nexthops.len()
            invariant
                i <= nexthops@.len(),
                weights_of(self@, nlri) == table@,
                forall|j: int| 0 <= j < i ==> table@.dom().contains(#[trigger] nexthops@[j]),
            decreases nexthops@.len() - i,
        {
            if table.position(&nexthops[i]).is_none() {
                assert(!table@.dom().contains(nexthops@[i as int]));
                return None;
            }
            i += 1;
        }
        let mut list: Vec<(IpAddr, u64)> = Vec::new();
        let mut k: usize = 0;
        while k < table.entries.len()
            invariant
                k <= table.entries@.len(),
                list@ == table.entries@.take(k as int),
            decreases table.entries@.len() - k,
        {
            list.push(table.entries[k]);
            k += 1;
            assert(list@ =~= table.entries@.take(k as int));
        }
        assert(table.entries@.take(table.entries@.len() as int) =~= table.entries@);
        Some(list)
    }

    /// What a step for a prefix starts from. A prefix without nexthops has no
    /// step, and loses its weights.
    pub fn step(
        &mut self,
        nlri: IpNet,
        nexthops: &Vec<IpAddr>,
        snapshot: &TcpRttSnapshot,
    ) -> (r: Option<StepPlan>)
        requires
            old(self).wf(),
            snapshot.wf(),
        ensures
            final(self).wf(),
            match r {
                None => nexthops@.len() == 0 && final(self)@ == old(self)@.remove(nlri),
                Some(plan) => nexthops@.len() > 0 && final(self)@ == old(self)@ && planned(
                    plan,
                    weights_of(old(self)@, nlri),
                    nexthops@,
                    snapshot@,
                    nlri,
                ),
            },
    {
        if nexthops.len() == 0 {
            self.forget(nlri);
            return None;
        }
        let weights = self.current(nlri, nexthops);
        let distinct = distinct_nexthops(nexthops);
        let ghost want = nexthops@.map_values(
            |h: Nexthop| (h, cost_at(snapshot@, nlri, h)),
        );
        let mut costs: Vec<(IpAddr, Option<Cost>)> = Vec::new();
        let mut i: usize = 0;
        while i < nexthops.len()
            invariant
                i <= nexthops@.len(),
                snapshot.wf(),
                want == nexthops@.map_values(|h: Nexthop| (h, cost_at(snapshot@, nlri, h))),
                costs@ == want.take(i as int),
            decreases nexthops@.len() - i,
        {
            costs.push((nexthops[i], known_cost(snapshot, nlri, nexthops[i])));
            i += 1;
            assert(costs@ =~= want.take(i as int));
        }
        assert(want.take(want.len() as int) =~= want);
        Some(StepPlan { weights, distinct, costs })
    }

    fn forget(&mut self, nlri: IpNet)
        requires
            old(self).wf(),
        ensures
            final(self).wf(),
            final(self)@ == old(self)@.remove(nlri),
    {
        let ghost start = *self;
        let _ = self.weights.take(&nlri);
        proof {
            lemma_map_of(start.weights.entries@);
            lemma_map_of(self.weights.entries@);
            assert(self@ =~= start@.remove(nlri));
            assert forall|i: int| 0 <= i < self.weights.entries@.len() implies (
            #[trigger] self.weights.entries@[i]).1.wf() by {
                let k = self.weights.entries@[i].0;
                assert(has_key(self.weights.entries@, k));
                assert(self.weights@.dom().contains(k));
                assert(start.weights@.dom().contains(k));
                let x = choose|x: int|
                    0 <= x < start.weights.entries@.len() && (
                    #[trigger] start.weights.entries@[x]).0 == k;
                assert(start.weights@[k] == start.weights.entries@[x].1);
            }
        }
    }

    /// Keeps the weights that a step has led to.
    pub fn store(&mut self, nlri: IpNet, weights: &Vec<(IpAddr, u64)>)
        requires
            old(self).wf(),
        ensures
            final(self).wf(),
            final(self)@ == old(self)@.insert(nlri, map_of(weights@)),
    {
        let ghost start = *self;
        let mut table: AssocMap<IpAddr, u64> = AssocMap::new();
        let mut i: usize = 0;
        assert(weights@.take(0) =~= Seq::empty());
        while i < weights.len()
            invariant
                i <= weights@.len(),
                table.wf(),
                table@ == map_of(weights@.take(i as int)),
            decreases weights@.len() - i,
        {
            assert(weights@.take(i + 1).drop_last() =~= weights@.take(i as int));
            table.insert(weights[i].0, weights[i].1);
            i += 1;
        }
        assert(weights@.take(weights@.len() as int) =~= weights@);
        self.weights.insert(nlri, table);
        proof {
            lemma_map_of(start.weights.entries@);
            lemma_map_of(self.weights.entries@);
            assert(self@ =~= start@.insert(nlri, map_of(weights@)));
            assert forall|i: int| 0 <= i < self.weights.entries@.len() implies (
            #[trigger] self.weights.entries@[i]).1.wf() by {
                let k = self.weights.entries@[i].0;
                assert(has_key(self.weights.entries@, k));
                assert(self.weights@.dom().contains(k));
                assert(self.weights@[k] == self.weights.entries@[i].1);
                if k != nlri {
                    assert(start.weights@.dom().contains(k));
                    let x = choose|x: int|
                        0 <= x < start.weights.entries@.len() && (
                        #[trigger] start.weights.entries@[x]).0 == k;
                    assert(start.weights@[k] == start.weights.entries@[x].1);
                }
            }
        }
    }
}

/// Weights that were kept for nexthops, no two of them the same, belong to these
/// nexthops at the next step: the descent goes on from where it was.
pub proof fn law_weights_carry_over(
    table: Map<Nlri, Map<Nexthop, u64>>,
    nlri: Nlri,
    weights: Seq<(Nexthop, u64)>,
    nexthops: Seq<Nexthop>,
)
    requires
        distinct_keys(weights),
        weights.len() == nexthops.len(),
        forall|i: int| 0 <= i < weights.len() ==> (#[trigger] weights[i]).0 == nexthops[i],
    ensures
        weights_of(table.insert(nlri, map_of(weights)), nlri) == map_of(weights),
        !outdated(map_of(weights), nexthops),
{
    lemma_map_len(weights);
    lemma_map_of(weights);
    assert forall|i: int| 0 <= i < nexthops.len() implies map_of(weights).dom().contains(
        #[trigger] nexthops[i],
    ) by {
        assert(weights[i].0 == nexthops[i]);
        assert(has_key(weights, nexthops[i]));
    }
}

/// A nexthop whose weight, scaled to the denominator, is `floor` and a
/// remainder, given by the bits of a double-precision number.
#[derive(Clone, Copy, Debug, PartialEq, Eq, Structural)]
pub struct Share {
    pub nexthop: IpAddr,
    pub floor: u16,
    pub remainder: u64,
}

/// The place of a double-precision number, given by its bits, in the total order
/// of such numbers: negative ones before positive ones, the former with their
/// magnitude descending.
pub open spec fn total_key(bits: u64) -> int {
    if bits < 0x8000_0000_0000_0000 {
        bits as int
    } else {
        0x8000_0000_0000_0000 - 1 - bits
    }
}

fn total_order_key(bits: u64) -> (r: i64)
    ensures
        r == total_key(bits),
{
    if bits < 0x8000_0000_0000_0000 {
        bits as i64
    } else {
        -1 - (bits - 0x8000_0000_0000_0000) as i64
    }
}

/// The floors, added up.
pub open spec fn floor_sum(list: Seq<Share>) -> nat
    decreases list.len(),
{
    if list.len() == 0 {
        0
    } else {
        floor_sum(list.drop_last()) + list.last().floor as nat
    }
}

/// The floors leave no more of the denominator than one for each nexthop.
pub open spec fn apportionable(list: Seq<Share>) -> bool {
    floor_sum(list) <= WEIGHT_DENOMINATOR <= floor_sum(list) + list.len()
}

/// `s` with `x` put behind the last share whose remainder is not smaller.
pub open spec fn insert_descending(s: Seq<Share>, x: Share) -> Seq<Share>
    decreases s.len(),
{
    if s.len() == 0 || total_key(s.last().remainder) >= total_key(x.remainder) {
        s.push(x)
    } else {
        insert_descending(s.drop_last(), x).push(s.last())
    }
}

/// The shares by descending remainder; where remainders are equal, what came
/// first stays first.
pub open spec fn descending(list: Seq<Share>) -> Seq<Share>
    decreases list.len(),
{
    if list.len() == 0 {
        list
    } else {
        insert_descending(descending(list.drop_last()), list.last())
    }
}

/// The weights: the floors, and one more for each of the largest remainders
/// until the denominator is shared out.
pub open spec fn apportioned(list: Seq<Share>) -> Seq<WeightedNexthop> {
    let order = descending(list);
    let leftover = WEIGHT_DENOMINATOR - floor_sum(list);
    Seq::new(
        order.len(),
        |i: int|
            WeightedNexthop {
                nexthop: order[i].nexthop,
                weight: (order[i].floor + if i < leftover {
                    1int
                } else {
                    0
                }) as u16,
            },
    )
}

proof fn lemma_insert_descending_position(s: Seq<Share>, x: Share, p: int)
    requires
        0 <= p <= s.len(),
        p > 0 ==> total_key(s[p - 1].remainder) >= total_key(x.remainder),
        forall|j: int|
            p <= j < s.len() ==> total_key((#[trigger] s[j]).remainder) < total_key(x.remainder),
    ensures
        insert_descending(s, x) == s.insert(p, x),
    decreases s.len(),
{
    if p < s.len() {
        let t = s.drop_last();
        assert(total_key(s[s.len() - 1].remainder) < total_key(x.remainder));
        assert forall|j: int| p <= j < t.len() implies total_key((#[trigger] t[j]).remainder)
            < total_key(x.remainder) by {
            assert(t[j] == s[j]);
        }
        lemma_insert_descending_position(t, x, p);
        assert(s.insert(p, x) =~= t.insert(p, x).push(s.last()));
    } else {
        assert(s.insert(p, x) =~= s.push(x));
    }
}

proof fn lemma_insert_descending(s: Seq<Share>, x: Share)
    requires
        forall|i: int, j: int|
            0 <= i <= j < s.len() ==> total_key((#[trigger] s[i]).remainder) >= total_key(
                (#[trigger] s[j]).remainder,
            ),
    ensures
        insert_descending(s, x).len() == s.len() + 1,
        floor_sum(insert_descending(s, x)) == floor_sum(s) + x.floor,
        insert_descending(s, x).to_multiset() == s.to_multiset().insert(x),
        forall|i: int, j: int|
            0 <= i <= j < s.len() + 1 ==> total_key(
                (#[trigger] insert_descending(s, x)[i]).remainder,
            ) >= total_key((#[trigger] insert_descending(s, x)[j]).remainder),
        forall|i: int|
            0 <= i <= s.len() ==> total_key((#[trigger] insert_descending(s, x)[i]).remainder)
                >= total_key(x.remainder) || (s.len() > 0 && total_key(
                insert_descending(s, x)[i].remainder,
            ) >= total_key(s.last().remainder)),
    decreases s.len(),
{
    broadcast use vstd::seq_lib::group_to_multiset_ensures;

    let r = insert_descending(s, x);
    if s.len() == 0 || total_key(s.last().remainder) >= total_key(x.remainder) {
        assert(r.drop_last() =~= s);
        assert forall|i: int| 0 <= i <= s.len() implies total_key((#[trigger] r[i]).remainder)
            >= total_key(x.remainder) by {
            if i < s.len() {
                assert(total_key(s[i].remainder) >= total_key(s[s.len() - 1].remainder));
            }
        }
        assert forall|i: int, j: int| 0 <= i <= j < r.len() implies total_key(
            (#[trigger] r[i]).remainder,
        ) >= total_key((#[trigger] r[j]).remainder) by {
            if j < s.len() {
                assert(total_key(s[i].remainder) >= total_key(s[j].remainder));
            }
        }
    } else {
        let t = s.drop_last();
        let q = insert_descending(t, x);
        assert forall|i: int, j: int| 0 <= i <= j < t.len() implies total_key(
            (#[trigger] t[i]).remainder,
        ) >= total_key((#[trigger] t[j]).remainder) by {
            assert(total_key(s[i].remainder) >= total_key(s[j].remainder));
        }
        lemma_insert_descending(t, x);
        assert(r.drop_last() =~= q);
        assert(s =~= t.push(s.last()));
        assert(r.to_multiset() =~= s.to_multiset().insert(x)) by {
            assert(s.to_multiset() =~= t.to_multiset().insert(s.last()));
            assert(r.to_multiset() =~= q.to_multiset().insert(s.last()));
        }
        assert forall|i: int, j: int| 0 <= i <= j < r.len() implies total_key(
            (#[trigger] r[i]).remainder,
        ) >= total_key((#[trigger] r[j]).remainder) by {
            if j < q.len() {
                assert(total_key(q[i].remainder) >= total_key(q[j].remainder));
            } else if i < q.len() {
                assert(r[i] == q[i]);
                if t.len() > 0 {
                    assert(total_key(s[t.len() - 1].remainder) >= total_key(
                        s[s.len() - 1].remainder,
                    ));
                }
            }
        }
        assert forall|i: int| 0 <= i <= s.len() implies total_key((#[trigger] r[i]).remainder)
            >= total_key(s.last().remainder) by {
            assert(r[s.len() as int] == s.last());
            assert(total_key(r[i].remainder) >= total_key(r[s.len() as int].remainder));
        }
    }
}

/// The order keeps the shares, and their remainders descend.
pub proof fn law_descending(list: Seq<Share>)
    ensures
        descending(list).len() == list.len(),
        floor_sum(descending(list)) == floor_sum(list),
        descending(list).to_multiset() == list.to_multiset(),
        forall|i: int, j: int|
            0 <= i <= j < list.len() ==> total_key((#[trigger] descending(list)[i]).remainder)
                >= total_key((#[trigger] descending(list)[j]).remainder),
    decreases list.len(),
{
    broadcast use vstd::seq_lib::group_to_multiset_ensures;

    if list.len() > 0 {
        let t = list.drop_last();
        law_descending(t);
        lemma_insert_descending(descending(t), list.last());
        assert(list =~= t.push(list.last()));
    }
}

proof fn lemma_floor_bound(list: Seq<Share>)
    ensures
        forall|i: int| 0 <= i < list.len() ==> (#[trigger] list[i]).floor <= floor_sum(list),
    decreases list.len(),
{
    if list.len() > 0 {
        let t = list.drop_last();
        lemma_floor_bound(t);
        assert forall|i: int| 0 <= i < list.len() implies (#[trigger] list[i]).floor <= floor_sum(
            list,
        ) by {
            if i < t.len() {
                assert(t[i] == list[i]);
            }
        }
    }
}

proof fn lemma_extras(order: Seq<Share>, s: Seq<WeightedNexthop>, leftover: int)
    requires
        s.len() == order.len(),
        forall|i: int|
            0 <= i < s.len() ==> (#[trigger] s[i]).weight == order[i].floor + if i < leftover {
                1int
            } else {
                0
            },
        leftover >= 0,
    ensures
        weight_sum(s) == floor_sum(order) + if leftover < order.len() {
            leftover
        } else {
            order.len() as int
        },
    decreases order.len(),
{
    if order.len() > 0 {
        let n = order.len() - 1;
        assert forall|i: int| 0 <= i < n implies (#[trigger] s.drop_last()[i]).weight
            == order.drop_last()[i].floor + if i < leftover {
            1int
        } else {
            0
        } by {
            assert(s.drop_last()[i] == s[i]);
        }
        lemma_extras(order.drop_last(), s.drop_last(), leftover);
        assert(s[n].weight == order[n].floor + if n < leftover {
            1int
        } else {
            0
        });
    }
}

/// The weights share out the whole denominator, and each is the floor of its
/// nexthop or one more.
pub proof fn law_apportioned(list: Seq<Share>)
    requires
        apportionable(list),
    ensures
        weight_sum(apportioned(list)) == WEIGHT_DENOMINATOR,
        apportioned(list).len() == list.len(),
        forall|i: int|
            0 <= i < list.len() ==> (#[trigger] apportioned(list)[i]).nexthop == descending(
                list,
            )[i].nexthop && descending(list)[i].floor <= apportioned(list)[i].weight
                <= descending(list)[i].floor + 1,
{
    law_descending(list);
    let order = descending(list);
    let leftover = WEIGHT_DENOMINATOR - floor_sum(list);
    lemma_floor_bound(order);
    let s = apportioned(list);
    assert forall|i: int| 0 <= i < s.len() implies (#[trigger] s[i]).weight == order[i].floor
        + if i < leftover {
        1int
    } else {
        0
    } by {
        assert(order[i].floor <= floor_sum(order));
    }
    lemma_extras(order, s, leftover);
}

/// The nexthops of shares, in order.
pub open spec fn share_nexthops(list: Seq<Share>) -> Seq<Nexthop> {
    list.map_values(|s: Share| s.nexthop)
}

/// The nexthops of weights, in order.
pub open spec fn weighted_nexthops(list: Seq<WeightedNexthop>) -> Seq<Nexthop> {
    list.map_values(|w: WeightedNexthop| w.nexthop)
}

/// Every floor is at least `m`.
pub open spec fn floors_from(list: Seq<Share>, m: int) -> bool {
    forall|i: int| 0 <= i < list.len() ==> (#[trigger] list[i]).floor >= m
}

proof fn lemma_insert_keeps(s: Seq<Share>, x: Share, m: int)
    ensures
        share_nexthops(insert_descending(s, x)).to_multiset() == share_nexthops(
            s,
        ).to_multiset().insert(x.nexthop),
        floors_from(s, m) && x.floor >= m ==> floors_from(insert_descending(s, x), m),
    decreases s.len(),
{
    broadcast use vstd::seq_lib::group_to_multiset_ensures;

    let r = insert_descending(s, x);
    if s.len() == 0 || total_key(s.last().remainder) >= total_key(x.remainder) {
        assert(share_nexthops(r) =~= share_nexthops(s).push(x.nexthop));
    } else {
        let t = s.drop_last();
        let q = insert_descending(t, x);
        lemma_insert_keeps(t, x, m);
        assert(share_nexthops(r) =~= share_nexthops(q).push(s.last().nexthop));
        assert(share_nexthops(s) =~= share_nexthops(t).push(s.last().nexthop));
        assert(share_nexthops(r).to_multiset() =~= share_nexthops(s).to_multiset().insert(
            x.nexthop,
        ));
        if floors_from(s, m) && x.floor >= m {
            assert forall|i: int| 0 <= i < t.len() implies (#[trigger] t[i]).floor >= m by {
                assert(t[i] == s[i]);
            }
            assert forall|i: int| 0 <= i < r.len() implies (#[trigger] r[i]).floor >= m by {
                if i < q.len() {
                    assert(r[i] == q[i]);
                } else {
                    assert(r[i] == s[s.len() - 1]);
                }
            }
        }
    }
}

proof fn lemma_descending_keeps(list: Seq<Share>, m: int)
    ensures
        share_nexthops(descending(list)).to_multiset() == share_nexthops(list).to_multiset(),
        floors_from(list, m) ==> floors_from(descending(list), m),
    decreases list.len(),
{
    broadcast use vstd::seq_lib::group_to_multiset_ensures;

    if list.len() > 0 {
        let t = list.drop_last();
        lemma_descending_keeps(t, m);
        lemma_insert_keeps(descending(t), list.last(), m);
        assert(share_nexthops(list) =~= share_nexthops(t).push(list.last().nexthop));
        if floors_from(list, m) {
            assert forall|i: int| 0 <= i < t.len() implies (#[trigger] t[i]).floor >= m by {
                assert(t[i] == list[i]);
            }
            assert(list[list.len() - 1].floor >= m);
        }
    }
}

/// The shares of a step make a FIB entry, in which no weight is below the smallest
/// floor.
pub proof fn law_shares_are_accepted(list: Seq<Share>, m: int)
    requires
        apportionable(list),
        1 <= list.len() <= MAX_NEXTHOPS,
        floors_from(list, m),
        m >= 1,
    ensures
        fib_error(apportioned(list)) is None,
        forall|i: int| 0 <= i < list.len() ==> (#[trigger] apportioned(list)[i]).weight >= m,
{
    law_apportioned(list);
    law_descending(list);
    lemma_descending_keeps(list, m);
    let s = apportioned(list);
    assert forall|i: int| 0 <= i < list.len() implies (#[trigger] s[i]).weight >= m by {
        assert(descending(list)[i].floor >= m);
    }
    assert(!some_zero(s));
}

proof fn lemma_firsts(s: Seq<Nexthop>)
    ensures
        firsts(s).len() <= s.len(),
        s.len() > 0 ==> firsts(s).len() > 0,
        firsts(s).no_duplicates(),
        forall|h: Nexthop| #[trigger] firsts(s).contains(h) <==> s.contains(h),
    decreases s.len(),
{
    if s.len() > 0 {
        let t = s.drop_last();
        let f = firsts(t);
        lemma_firsts(t);
        assert forall|h: Nexthop| #[trigger] firsts(s).contains(h) <==> s.contains(h) by {
            if firsts(s).contains(h) {
                if f.contains(h) {
                    assert(t.contains(h));
                    let k = choose|k: int| 0 <= k < t.len() && t[k] == h;
                    assert(s[k] == h);
                } else {
                    let k = choose|k: int| 0 <= k < firsts(s).len() && firsts(s)[k] == h;
                    assert(k == f.len()) by {
                        if k < f.len() {
                            assert(f[k] == h);
                        }
                    }
                    assert(s[s.len() - 1] == h);
                }
            }
            if s.contains(h) {
                let k = choose|k: int| 0 <= k < s.len() && s[k] == h;
                if k < t.len() {
                    assert(t[k] == h);
                    assert(f.contains(h));
                    let x = choose|x: int| 0 <= x < f.len() && f[x] == h;
                    assert(firsts(s)[x] == h);
                } else if !f.contains(h) {
                    assert(firsts(s)[f.len() as int] == h);
                }
            }
        }
        if !f.contains(s.last()) {
            let g = firsts(s);
            assert forall|i: int, j: int| 0 <= i < g.len() && 0 <= j < g.len() && i != j implies g[i]
                != g[j] by {
                if i < f.len() && j < f.len() {
                    assert(f[i] != f[j]);
                } else if i < f.len() {
                    assert(f.contains(f[i]));
                } else {
                    assert(f.contains(f[j]));
                }
            }
        }
    }
}

/// A step for one to four nexthops ends in a FIB entry: where the step has kept the
/// weights above one percent, every nexthop has exactly one weight, no other address
/// has one, all of them are at least one percent of the denominator, and they add up
/// to it.
pub proof fn law_step_makes_an_entry(nexthops: Seq<Nexthop>, shares: Seq<Share>)
    requires
        1 <= nexthops.len() <= MAX_NEXTHOPS,
        share_nexthops(shares).to_multiset() == firsts(nexthops).to_multiset(),
        apportionable(shares),
        floors_from(shares, WEIGHT_DENOMINATOR as int / 100),
    ensures
        fib_error(apportioned(shares)) is None,
        weight_sum(apportioned(shares)) == WEIGHT_DENOMINATOR,
        forall|i: int|
            0 <= i < shares.len() ==> (#[trigger] apportioned(shares)[i]).weight
                >= WEIGHT_DENOMINATOR as int / 100,
        forall|h: Nexthop| #[trigger]
            weighted_nexthops(apportioned(shares)).to_multiset().count(h) == if nexthops.contains(
                h,
            ) {
                1nat
            } else {
                0
            },
{
    broadcast use vstd::seq_lib::group_to_multiset_ensures;

    let f = firsts(nexthops);
    let m = WEIGHT_DENOMINATOR as int / 100;
    lemma_firsts(nexthops);
    assert(share_nexthops(shares).to_multiset().len() == share_nexthops(shares).len());
    assert(f.to_multiset().len() == f.len());
    law_shares_are_accepted(shares, m);
    law_apportioned(shares);
    law_descending(shares);
    lemma_descending_keeps(shares, m);
    assert(weighted_nexthops(apportioned(shares)) =~= share_nexthops(descending(shares)));
    f.lemma_multiset_has_no_duplicates();
    assert forall|h: Nexthop| #[trigger]
        weighted_nexthops(apportioned(shares)).to_multiset().count(h) == if nexthops.contains(h) {
        1nat
    } else {
        0
    } by {
        assert(f.contains(h) <==> f.to_multiset().count(h) > 0);
        assert(f.contains(h) <==> nexthops.contains(h));
    }
}

/// Whether the floors leave no more than one for each nexthop.
pub fn is_apportionable(list: &Vec<Share>) -> (r: bool)
    ensures
        r == apportionable(list@),
{
    let mut sum: u128 = 0;
    let mut i: usize = 0;
    assert(list@.take(0) =~= Seq::empty());
    while i < list.len()
        invariant
            i <= list@.len(),
            sum == floor_sum(list@.take(i as int)),
            sum <= i * 0xffff,
        decreases list@.len() - i,
    {
        assert(list@.take(i + 1).drop_last() =~= list@.take(i as int));
        sum = sum + list[i].floor as u128;
        i += 1;
    }
    assert(list@.take(list@.len() as int) =~= list@);
    sum <= 10_000 && 10_000 <= sum + list.len() as u128
}

/// Shares out the denominator: every nexthop gets its floor, and those with the
/// largest remainders one more each.
pub fn quantise(shares: &Vec<Share>) -> (r: Vec<WeightedNexthop>)
    requires
        apportionable(shares@),
    ensures
        r@ == apportioned(shares@),
        weight_sum(r@) == WEIGHT_DENOMINATOR,
{
    let mut order: Vec<Share> = Vec::new();
    let mut allocated: u16 = 0;
    let mut i: usize = 0;
    assert(shares@.take(0) =~= Seq::empty());
    while i < shares.len()
        invariant
            i <= shares@.len(),
            apportionable(shares@),
            order@ == descending(shares@.take(i as int)),
            allocated == floor_sum(shares@.take(i as int)),
        decreases shares@.len() - i,
    {
        let x = shares[i];
        let k = total_order_key(x.remainder);
        let mut p: usize = order.len();
        while p > 0 && total_order_key(order[p - 1].remainder) < k
            invariant
                p <= order@.len(),
                k == total_key(x.remainder),
                forall|j: int|
                    p <= j < order@.len() ==> total_key((#[trigger] order@[j]).remainder)
                        < total_key(x.remainder),
            decreases p,
        {
            p -= 1;
        }
        proof {
            lemma_insert_descending_position(order@, x, p as int);
            assert(shares@.take(i + 1).drop_last() =~= shares@.take(i as int));
            lemma_floor_prefix(shares@, i + 1);
        }
        order.insert(p, x);
        allocated = allocated + x.floor;
        i += 1;
    }
    assert(shares@.take(shares@.len() as int) =~= shares@);
    let leftover: usize = (WEIGHT_DENOMINATOR - allocated) as usize;
    let ghost want = apportioned(shares@);
    proof {
        law_apportioned(shares@);
        law_descending(shares@);
        lemma_floor_bound(order@);
    }
    let mut out: Vec<WeightedNexthop> = Vec::new();
    let mut n: usize = 0;
    while n < order.len()
        invariant
            n <= order@.len(),
            order@ == descending(shares@),
            leftover == WEIGHT_DENOMINATOR - floor_sum(shares@),
            want == apportioned(shares@),
            forall|j: int| 0 <= j < order@.len() ==> (#[trigger] order@[j]).floor <= 10_000,
            out@ == want.take(n as int),
        decreases order@.len() - n,
    {
        let extra: u16 = if n < leftover {
            1
        } else {
            0
        };
        assert(order@[n as int].floor <= 10_000);
        out.push(
            WeightedNexthop { nexthop: order[n].nexthop, weight: order[n].floor + extra },
        );
        n += 1;
        assert(out@ =~= want.take(n as int));
    }
    assert(want.take(want.len() as int) =~= want);
    out
}

proof fn lemma_floor_prefix(list: Seq<Share>, n: int)
    requires
        0 <= n <= list.len(),
    ensures
        floor_sum(list.take(n)) <= floor_sum(list),
    decreases list.len(),
{
    if n == list.len() {
        assert(list.take(n) =~= list);
    } else {
        lemma_floor_prefix(list.drop_last(), n);
        assert(list.drop_last().take(n) =~= list.take(n));
    }
}

/// A nexthop costs the mean time of its window, and besides whatever of the mean
/// lies above the smallest time.
pub proof fn law_cost_is_mean_and_excess(win: TcpRttWindow)
    ensures
        cost_of(win).latency == win.avg_srtt_us,
        win.avg_srtt_us >= win.min_rtt_min ==> cost_of(win).congestion + win.min_rtt_min
            == win.avg_srtt_us,
        win.avg_srtt_us < win.min_rtt_min ==> cost_of(win).congestion == 0,
{
}

/// Neither a spike nor the number of samples makes a nexthop costlier: windows with
/// one mean and one smallest time cost the same.
pub proof fn law_cost_ignores_spikes(a: TcpRttWindow, b: TcpRttWindow)
    requires
        a.avg_srtt_us == b.avg_srtt_us,
        a.min_rtt_min == b.min_rtt_min,
    ensures
        cost_of(a) == cost_of(b),
{
}

/// A slower mean never makes a nexthop cheaper, nor does a smaller smallest time.
pub proof fn law_cost_grows_with_the_mean(a: TcpRttWindow, b: TcpRttWindow)
    requires
        a.avg_srtt_us <= b.avg_srtt_us,
        a.min_rtt_min >= b.min_rtt_min,
    ensures
        cost_of(a).latency <= cost_of(b).latency,
        cost_of(a).congestion <= cost_of(b).congestion,
{
}

/// What a step starts from: every nexthop in turn, with the mean time and the excess
/// that its window for this prefix shows, and without a cost where it has no window.
pub proof fn law_plan_prices_every_nexthop(
    plan: StepPlan,
    weights: Map<Nexthop, u64>,
    nexthops: Seq<Nexthop>,
    windows: Map<Nlri, Map<Nexthop, TcpRttWindow>>,
    nlri: Nlri,
    i: int,
)
    requires
        planned(plan, weights, nexthops, windows, nlri),
        0 <= i < nexthops.len(),
    ensures
        plan.costs@.len() == nexthops.len(),
        plan.costs@[i].0 == nexthops[i],
        plan.costs@[i].1 is Some <==> windows.dom().contains(nlri)
            && windows[nlri].dom().contains(nexthops[i]),
        plan.costs@[i].1 is Some ==> {
            let win = windows[nlri][nexthops[i]];
            let cost = plan.costs@[i].1->0;
            &&& cost.latency == win.avg_srtt_us
            &&& win.avg_srtt_us >= win.min_rtt_min ==> cost.congestion + win.min_rtt_min
                == win.avg_srtt_us
            &&& win.avg_srtt_us < win.min_rtt_min ==> cost.congestion == 0
        },
{
}

/// What a step starts from: each nexthop once; and the weights so far, as long as
/// there are as many as nexthops and every nexthop has one.
pub proof fn law_plan_keeps_weights(
    plan: StepPlan,
    weights: Map<Nexthop, u64>,
    nexthops: Seq<Nexthop>,
    windows: Map<Nlri, Map<Nexthop, TcpRttWindow>>,
    nlri: Nlri,
)
    requires
        planned(plan, weights, nexthops, windows, nlri),
    ensures
        plan.distinct@.no_duplicates(),
        forall|h: Nexthop| #[trigger] plan.distinct@.contains(h) <==> nexthops.contains(h),
        plan.weights is Some <==> weights.dom().len() == nexthops.len() && forall|i: int|
            0 <= i < nexthops.len() ==> weights.dom().contains(#[trigger] nexthops[i]),
        plan.weights is Some ==> {
            let list = plan.weights->0@;
            &&& forall|j: int|
                0 <= j < list.len() ==> weights.dom().contains((#[trigger] list[j]).0)
                    && weights[list[j].0] == list[j].1
            &&& forall|h: Nexthop| #[trigger]
                weights.dom().contains(h) ==> exists|j: int|
                    0 <= j < list.len() && (#[trigger] list[j]).0 == h
            &&& forall|j: int, k: int|
                0 <= j < k < list.len() ==> (#[trigger] list[j]).0 != (#[trigger] list[k]).0
        },
{
    lemma_firsts(nexthops);
    if plan.weights is Some {
        let list = plan.weights->0@;
        lemma_map_of(list);
        assert forall|j: int| 0 <= j < list.len() implies weights.dom().contains(
            (#[trigger] list[j]).0,
        ) && weights[list[j].0] == list[j].1 by {
            assert(has_key(list, list[j].0));
        }
    }
}

/// Weights that are kept for a prefix are the ones that it then has; those of other
/// prefixes stay, and a prefix that never had any has none.
pub proof fn law_weights_are_kept_by_prefix(
    table: Map<Nlri, Map<Nexthop, u64>>,
    nlri: Nlri,
    other: Nlri,
    weights: Map<Nexthop, u64>,
)
    requires
        other != nlri,
    ensures
        weights_of(table.insert(nlri, weights), nlri) == weights,
        weights_of(table.insert(nlri, weights), other) == weights_of(table, other),
        weights_of(table.remove(nlri), nlri).dom() == Set::<Nexthop>::empty(),
        weights_of(table.remove(nlri), other) == weights_of(table, other),
{
    assert(weights_of(table.remove(nlri), nlri).dom() =~= Set::<Nexthop>::empty());
}

/// The order of remainders is that of the numbers that the bits stand for: among
/// positive numbers more bits are more, among negative ones less, and every negative
/// number comes before every positive one.
pub proof fn law_total_key_orders_numbers(a: u64, b: u64)
    ensures
        a < 0x8000_0000_0000_0000 && b < 0x8000_0000_0000_0000 ==> (total_key(a) < total_key(b)
            <==> a < b),
        a >= 0x8000_0000_0000_0000 && b >= 0x8000_0000_0000_0000 ==> (total_key(a) < total_key(b)
            <==> a > b),
        a >= 0x8000_0000_0000_0000 && b < 0x8000_0000_0000_0000 ==> total_key(a) < total_key(b),
{
}

/// The sum of floors: that of one share is its floor, and sums of parts add up.
pub proof fn law_floors_add_up(s: Seq<Share>, t: Seq<Share>, x: Share)
    ensures
        floor_sum(Seq::empty()) == 0,
        floor_sum(seq![x]) == x.floor,
        floor_sum(s + t) == floor_sum(s) + floor_sum(t),
    decreases t.len(),
{
    assert(seq![x].drop_last() =~= Seq::empty());
    if t.len() == 0 {
        assert(s + t =~= s);
    } else {
        law_floors_add_up(s, t.drop_last(), x);
        assert((s + t).drop_last() =~= s + t.drop_last());
    }
}

/// What the floors leave of the denominator goes to the largest remainders, one
/// each: where one nexthop got more than its floor and another did not, the
/// remainder of the former is not smaller.
pub proof fn law_largest_remainders_first(list: Seq<Share>)
    requires
        apportionable(list),
    ensures
        floor_sum(list) <= 10_000 <= floor_sum(list) + list.len(),
        descending(list).to_multiset() == list.to_multiset(),
        apportioned(list).len() == list.len(),
        descending(list).len() == list.len(),
        weight_sum(apportioned(list)) == 10_000,
        forall|i: int|
            0 <= i < list.len() ==> (#[trigger] apportioned(list)[i]).nexthop == descending(
                list,
            )[i].nexthop,
        forall|i: int|
            0 <= i < list.len() ==> (#[trigger] apportioned(list)[i]).weight == descending(
                list,
            )[i].floor || apportioned(list)[i].weight == descending(list)[i].floor + 1,
        forall|i: int, j: int|
            0 <= i < list.len() && 0 <= j < list.len() && (#[trigger] apportioned(list)[i]).weight
                == descending(list)[i].floor + 1 && (#[trigger] apportioned(list)[j]).weight
                == descending(list)[j].floor ==> total_key(descending(list)[i].remainder)
                >= total_key(descending(list)[j].remainder),
{
    law_apportioned(list);
    law_descending(list);
    let order = descending(list);
    let leftover = WEIGHT_DENOMINATOR - floor_sum(list);
    lemma_floor_bound(order);
    let s = apportioned(list);
    assert forall|i: int| 0 <= i < s.len() implies (#[trigger] s[i]).weight == order[i].floor
        + if i < leftover {
        1int
    } else {
        0
    } by {
        assert(order[i].floor <= floor_sum(order));
    }
    assert forall|i: int, j: int|
        0 <= i < list.len() && 0 <= j < list.len() && (#[trigger] s[i]).weight == order[i].floor + 1
            && (#[trigger] s[j]).weight == order[j].floor implies total_key(order[i].remainder)
        >= total_key(order[j].remainder) by {
        assert(i < leftover <= j);
        assert(order[i] == order[i] && order[j] == order[j]);
    }
}

/// Shares can be apportioned where the denominator lies no further above the sum of
/// their floors than there are shares.
pub proof fn law_what_can_be_apportioned(list: Seq<Share>)
    ensures
        apportionable(list) <==> floor_sum(list) <= 10_000 && 10_000 - floor_sum(list)
            <= list.len(),
{
}

/// Each nexthop has its place where it first occurred.
pub proof fn law_first_occurrences(s: Seq<Nexthop>, h: Nexthop)
    ensures
        firsts(Seq::empty()).len() == 0,
        s.contains(h) ==> firsts(s.push(h)) == firsts(s),
        !s.contains(h) ==> firsts(s.push(h)) == firsts(s).push(h),
{
    lemma_firsts(s);
    assert(s.push(h).drop_last() =~= s);
    assert(firsts(s).contains(h) <==> s.contains(h));
}

proof fn lemma_insert_keeps_ties(s: Seq<Share>, x: Share, k: int)
    ensures
        insert_descending(s, x).filter(|y: Share| total_key(y.remainder) == k) == s.filter(
            |y: Share| total_key(y.remainder) == k,
        ) + if total_key(x.remainder) == k {
            seq![x]
        } else {
            Seq::empty()
        },
    decreases s.len(),
{
    reveal(Seq::filter);
    let pred = |y: Share| total_key(y.remainder) == k;
    let r = insert_descending(s, x);
    let more = if total_key(x.remainder) == k {
        seq![x]
    } else {
        Seq::empty()
    };
    if s.len() == 0 || total_key(s.last().remainder) >= total_key(x.remainder) {
        assert(r.drop_last() =~= s);
        assert(r.filter(pred) =~= s.filter(pred) + more);
    } else {
        let t = s.drop_last();
        lemma_insert_keeps_ties(t, x, k);
        assert(r.drop_last() =~= insert_descending(t, x));
        assert(r.last() == s.last());
        assert(insert_descending(t, x).filter(pred) == t.filter(pred) + more);
        assert(r.filter(pred) =~= s.filter(pred) + more);
    }
}

/// Shares whose remainders are equal keep their order.
pub proof fn law_ties_keep_their_order(list: Seq<Share>, k: int)
    ensures
        descending(list).filter(|y: Share| total_key(y.remainder) == k) == list.filter(
            |y: Share| total_key(y.remainder) == k,
        ),
    decreases list.len(),
{
    reveal(Seq::filter);
    let pred = |y: Share| total_key(y.remainder) == k;
    if list.len() > 0 {
        let t = list.drop_last();
        law_ties_keep_their_order(t, k);
        lemma_insert_keeps_ties(descending(t), list.last(), k);
        assert(descending(list).filter(pred) =~= list.filter(pred));
    }
}

/// What is seen of the weights is what is stored: those of each prefix, by nexthop.
pub proof fn law_descent_shows_its_weights(descent: Descent, i: int, j: int)
    requires
        descent.wf(),
        0 <= i < descent.weights.entries@.len(),
        0 <= j < descent.weights.entries@[i].1.entries@.len(),
    ensures
        ({
            let (nlri, table) = descent.weights.entries@[i];
            let (nexthop, weight) = table.entries@[j];
            &&& descent@.dom().contains(nlri)
            &&& descent@[nlri].dom().contains(nexthop)
            &&& descent@[nlri][nexthop] == weight
        }),
{
    law_pairs_are_the_map(descent.weights.entries@);
    let x = descent.weights.entries@[i];
    assert(x.1.wf());
    law_pairs_are_the_map(x.1.entries@);
    let y = x.1.entries@[j];
    assert(map_of(x.1.entries@)[y.0] == y.1);
    assert(map_of(descent.weights.entries@)[x.0] == x.1);
}

proof fn lemma_insert_keeps_nexthop_counts(s: Seq<Share>, x: Share)
    ensures
        insert_descending(s, x).map_values(|y: Share| y.nexthop).to_multiset() == s.map_values(
            |y: Share| y.nexthop,
        ).to_multiset().insert(x.nexthop),
    decreases s.len(),
{
    broadcast use vstd::seq_lib::group_to_multiset_ensures;

    let f = |y: Share| y.nexthop;
    let r = insert_descending(s, x);
    if s.len() == 0 || total_key(s.last().remainder) >= total_key(x.remainder) {
        assert(r.map_values(f) =~= s.map_values(f).push(x.nexthop));
    } else {
        let t = s.drop_last();
        lemma_insert_keeps_nexthop_counts(t, x);
        assert(r.map_values(f) =~= insert_descending(t, x).map_values(f).push(s.last().nexthop));
        assert(s.map_values(f) =~= t.map_values(f).push(s.last().nexthop));
        assert(r.map_values(f).to_multiset() =~= s.map_values(f).to_multiset().insert(x.nexthop));
    }
}

/// Apportioning neither drops a nexthop nor adds one: each occurs as often as among
/// the shares.
pub proof fn law_apportioning_keeps_nexthops(list: Seq<Share>)
    ensures
        apportioned(list).map_values(|w: WeightedNexthop| w.nexthop).to_multiset()
            == list.map_values(|s: Share| s.nexthop).to_multiset(),
{
    lemma_descending_keeps_nexthop_counts(list);
    assert(apportioned(list).map_values(|w: WeightedNexthop| w.nexthop) =~= descending(
        list,
    ).map_values(|s: Share| s.nexthop));
}

proof fn lemma_descending_keeps_nexthop_counts(list: Seq<Share>)
    ensures
        descending(list).map_values(|s: Share| s.nexthop).to_multiset() == list.map_values(
            |s: Share| s.nexthop,
        ).to_multiset(),
    decreases list.len(),
{
    broadcast use vstd::seq_lib::group_to_multiset_ensures;

    let f = |s: Share| s.nexthop;
    if list.len() > 0 {
        let t = list.drop_last();
        lemma_descending_keeps_nexthop_counts(t);
        lemma_insert_keeps_nexthop_counts(descending(t), list.last());
        assert(list.map_values(f) =~= t.map_values(f).push(list.last().nexthop));
    }
}

} // verus!
