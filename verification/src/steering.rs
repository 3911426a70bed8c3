//! Where traffic is steered: the routes that BGP has announced, and the FIB
//! entries that follow from them.

use vstd::prelude::*;

use crate::assoc::{has_key, law_pairs_are_the_map, lemma_map_of, map_of, AssocMap};
use crate::bgp::{AnnouncementView, Nexthop, Nlri, PathId, Route, Update, UpdateView};
use crate::bpf_abi::{mapped_bits, MAX_NEXTHOPS, WEIGHT_DENOMINATOR};
use crate::descent::{
    apportionable, apportioned, floors_from, law_apportioned, law_apportioning_keeps_nexthops,
    law_descending, law_shares_are_accepted, planned, quantise, weights_of, Descent, Share, StepPlan,
};
use crate::fib::{
    fib_error, law_sorted, law_sorted_ascends, law_sorted_keeps_nexthops, law_what_makes_an_entry,
    some_zero, sorted, weight_sum, FibEntry, FibError, WeightedNexthop,
};
use crate::net::{IpAddr, IpNet};
use crate::rtt_aggregation::TcpRttSnapshot;

verus! {

/// A nexthop, and the path over which it was announced.
pub type Path = (PathId, Nexthop);

/// The paths of a prefix, none where it is unknown.
pub open spec fn paths_of(table: Map<Nlri, Seq<Path>>, nlri: Nlri) -> Seq<Path> {
    if table.dom().contains(nlri) {
        table[nlri]
    } else {
        Seq::empty()
    }
}

/// A path with another id than the given one.
pub open spec fn is_other(path_id: PathId) -> spec_fn(Path) -> bool {
    |p: Path| p.0 != path_id
}

/// The paths other than the one with the given id, in their order.
pub open spec fn others(paths: Seq<Path>, path_id: PathId) -> Seq<Path> {
    paths.filter(is_other(path_id))
}

/// The table with a route over the given nexthop behind the other paths of its
/// prefix, in place of the path that had its id.
pub open spec fn inserted(
    table: Map<Nlri, Seq<Path>>,
    route: Route,
    nexthop: Nexthop,
) -> Map<Nlri, Seq<Path>> {
    table.insert(
        route.nlri,
        others(paths_of(table, route.nlri), route.path_id).push((route.path_id, nexthop)),
    )
}

/// The table without a route; a prefix without paths leaves it.
pub open spec fn removed(table: Map<Nlri, Seq<Path>>, route: Route) -> Map<Nlri, Seq<Path>> {
    let rest = others(paths_of(table, route.nlri), route.path_id);
    if rest.len() == 0 {
        table.remove(route.nlri)
    } else {
        table.insert(route.nlri, rest)
    }
}

/// No path id occurs twice.
pub open spec fn distinct_paths(paths: Seq<Path>) -> bool {
    forall|i: int, j: int| 0 <= i < j < paths.len() ==> (#[trigger] paths[i]).0 != (
    #[trigger] paths[j]).0
}

/// Every prefix has a path, and no two with the same id.
pub open spec fn valid_table(table: Map<Nlri, Seq<Path>>) -> bool {
    forall|nlri: Nlri| #[trigger]
        table.dom().contains(nlri) ==> table[nlri].len() > 0 && distinct_paths(table[nlri])
}

/// The nexthops of paths, in order.
pub open spec fn nexthops_of(paths: Seq<Path>) -> Seq<Nexthop> {
    paths.map_values(|p: Path| p.1)
}

proof fn lemma_others(paths: Seq<Path>, path_id: PathId)
    ensures
        others(paths, path_id).len() <= paths.len(),
        forall|i: int|
            0 <= i < others(paths, path_id).len() ==> (#[trigger] others(paths, path_id)[i]).0
                != path_id && paths.contains(others(paths, path_id)[i]),
        distinct_paths(paths) ==> distinct_paths(others(paths, path_id)),
        others(others(paths, path_id), path_id) == others(paths, path_id),
        forall|nexthop: Nexthop| #[trigger]
            others(others(paths, path_id).push((path_id, nexthop)), path_id) == others(
                paths,
                path_id,
            ),
    decreases paths.len(),
{
    reveal(Seq::filter);
    let pred = is_other(path_id);
    let o = others(paths, path_id);
    if paths.len() > 0 {
        let t = paths.drop_last();
        let ot = others(t, path_id);
        lemma_others(t, path_id);
        if pred(paths.last()) {
            assert(o == ot.push(paths.last()));
            assert(o.drop_last() =~= ot);
        }
        assert forall|i: int| 0 <= i < o.len() implies (#[trigger] o[i]).0 != path_id
            && paths.contains(o[i]) by {
            if i < ot.len() {
                assert(ot[i] == o[i]);
                let k = choose|k: int| 0 <= k < t.len() && t[k] == ot[i];
                assert(paths[k] == o[i]);
            } else {
                assert(paths[paths.len() - 1] == o[i]);
            }
        }
        if distinct_paths(paths) {
            assert(distinct_paths(t)) by {
                assert forall|i: int, j: int| 0 <= i < j < t.len() implies (#[trigger] t[i]).0 != (
                #[trigger] t[j]).0 by {
                    assert(paths[i].0 != paths[j].0);
                }
            }
            assert forall|i: int, j: int| 0 <= i < j < o.len() implies (#[trigger] o[i]).0 != (
            #[trigger] o[j]).0 by {
                if j < ot.len() {
                    assert(ot[i].0 != ot[j].0);
                } else {
                    assert(ot[i] == o[i]);
                    let k = choose|k: int| 0 <= k < t.len() && t[k] == ot[i];
                    assert(paths[k].0 != paths[paths.len() - 1].0);
                }
            }
        }
    }
    assert forall|nexthop: Nexthop| #[trigger]
        others(o.push((path_id, nexthop)), path_id) == o by {
        let pushed = o.push((path_id, nexthop));
        assert(pushed.drop_last() =~= o);
        assert(!pred(pushed.last()));
        assert(o.filter(pred) == o);
    }
}

/// What the table holds of a route that was just inserted: its nexthop, on its
/// path, behind all others.
pub proof fn law_insert_shows(table: Map<Nlri, Seq<Path>>, route: Route, nexthop: Nexthop)
    ensures
        paths_of(inserted(table, route, nexthop), route.nlri).last() == (route.path_id, nexthop),
        others(paths_of(inserted(table, route, nexthop), route.nlri), route.path_id) == others(
            paths_of(table, route.nlri),
            route.path_id,
        ),
        forall|nlri: Nlri|
            nlri != route.nlri ==> paths_of(inserted(table, route, nexthop), nlri)
                == #[trigger] paths_of(table, nlri),
{
    lemma_others(paths_of(table, route.nlri), route.path_id);
}

/// Removing a route takes back its insertion, and what stood on its path before
/// is gone too.
pub proof fn law_remove_undoes_insert(table: Map<Nlri, Seq<Path>>, route: Route, nexthop: Nexthop)
    ensures
        removed(inserted(table, route, nexthop), route) == removed(table, route),
        removed(removed(table, route), route) == removed(table, route),
{
    lemma_others(paths_of(table, route.nlri), route.path_id);
    let rest = others(paths_of(table, route.nlri), route.path_id);
    assert(removed(inserted(table, route, nexthop), route) =~= removed(table, route));
    let once = removed(table, route);
    if rest.len() > 0 {
        assert(paths_of(once, route.nlri) == rest);
        assert(removed(once, route) =~= once);
    } else {
        assert(paths_of(once, route.nlri) =~= Seq::empty());
        reveal(Seq::filter);
        assert(removed(once, route) =~= once);
    }
}

/// Inserting and removing routes keep the table valid.
pub proof fn law_table_stays_valid(table: Map<Nlri, Seq<Path>>, route: Route, nexthop: Nexthop)
    requires
        valid_table(table),
    ensures
        valid_table(inserted(table, route, nexthop)),
        valid_table(removed(table, route)),
{
    let paths = paths_of(table, route.nlri);
    let rest = others(paths, route.path_id);
    lemma_others(paths, route.path_id);
    assert(distinct_paths(paths));
    let pushed = rest.push((route.path_id, nexthop));
    assert forall|i: int, j: int| 0 <= i < j < pushed.len() implies (#[trigger] pushed[i]).0 != (
    #[trigger] pushed[j]).0 by {
        assert(pushed[i] == rest[i]);
        if j < rest.len() {
            assert(pushed[j] == rest[j]);
        }
    }
    assert(distinct_paths(pushed));
    let a = inserted(table, route, nexthop);
    assert forall|nlri: Nlri| #[trigger] a.dom().contains(nlri) implies a[nlri].len() > 0
        && distinct_paths(a[nlri]) by {
        if nlri != route.nlri {
            assert(table.dom().contains(nlri));
        }
    }
    let b = removed(table, route);
    assert forall|nlri: Nlri| #[trigger] b.dom().contains(nlri) implies b[nlri].len() > 0
        && distinct_paths(b[nlri]) by {
        if nlri != route.nlri {
            assert(table.dom().contains(nlri));
        }
    }
}

/// The routes that are known, by prefix.
#[derive(Clone, Debug)]
pub struct Rib {
    pub table: AssocMap<IpNet, Vec<(Option<u32>, IpAddr)>>,
}

impl View for Rib {
    type V = Map<Nlri, Seq<Path>>;

    open spec fn view(&self) -> Map<Nlri, Seq<Path>> {
        self.table@.map_values(|v: Vec<(Option<u32>, IpAddr)>| v@)
    }
}

fn without_path(paths: &Vec<(Option<u32>, IpAddr)>, path_id: Option<u32>) -> (r: Vec<
    (Option<u32>, IpAddr),
>)
    ensures
        r@ == others(paths@, path_id),
{
    let ghost pred = is_other(path_id);
    let mut out: Vec<(Option<u32>, IpAddr)> = Vec::new();
    let mut i: usize = 0;
    proof {
        assert(paths@.take(0) =~= Seq::empty());
        reveal(Seq::filter);
    }
    while i < paths.len()
        invariant
            i <= paths@.len(),
            pred == is_other(path_id),
            out@ == paths@.take(i as int).filter(pred),
        decreases paths@.len() - i,
    {
        proof {
            reveal(Seq::filter);
            assert(paths@.take(i + 1).drop_last() =~= paths@.take(i as int));
            assert(paths@.take(i + 1).last() == paths@[i as int]);
        }
        let same: bool = match (paths[i].0, path_id) {
            (Some(a), Some(b)) => a == b,
            (None, None) => true,
            _ => false,
        };
        if !same {
            out.push(paths[i]);
        }
        i += 1;
    }
    assert(paths@.take(paths@.len() as int) =~= paths@);
    out
}

impl Rib {
    /// Every prefix is listed once, with a path, and no two with the same id.
    pub open spec fn wf(self) -> bool {
        self.table.wf() && valid_table(self@)
    }

    /// No routes.
    pub fn new() -> (r: Rib)
        ensures
            r.wf(),
            r@ == Map::<Nlri, Seq<Path>>::empty(),
    {
        let r = Rib { table: AssocMap::new() };
        assert(r@ =~= Map::<Nlri, Seq<Path>>::empty());
        r
    }

    /// Takes in a route over the given nexthop.
    pub fn insert(&mut self, route: &Route, nexthop: &IpAddr)
        requires
            old(self).wf(),
        ensures
            final(self).wf(),
            final(self)@ == inserted(old(self)@, *route, *nexthop),
    {
        let ghost start = self@;
        let mut paths = match self.table.get(&route.nlri) {
            Some(paths) => without_path(paths, route.path_id),
            None => {
                reveal(Seq::filter);
                Vec::new()
            },
        };
        assert(paths@ =~= others(paths_of(start, route.nlri), route.path_id));
        paths.push((route.path_id, *nexthop));
        self.table.insert(route.nlri, paths);
        proof {
            assert(self@ =~= inserted(start, *route, *nexthop));
            law_table_stays_valid(start, *route, *nexthop);
        }
    }

    /// Takes a route out.
    pub fn remove(&mut self, route: &Route)
        requires
            old(self).wf(),
        ensures
            final(self).wf(),
            final(self)@ == removed(old(self)@, *route),
    {
        let ghost start = self@;
        proof {
            law_table_stays_valid(start, *route, IpAddr::V4(arbitrary()));
        }
        let paths = match self.table.get(&route.nlri) {
            Some(paths) => without_path(paths, route.path_id),
            None => {
                proof {
                    reveal(Seq::filter);
                    assert(removed(start, *route) =~= start);
                }
                return;
            },
        };
        if paths.len() == 0 {
            let _ = self.table.take(&route.nlri);
        } else {
            self.table.insert(route.nlri, paths);
        }
        assert(self@ =~= removed(start, *route));
    }

    /// The prefixes that have routes, each once.
    pub fn nlris(&self) -> (r: Vec<IpNet>)
        requires
            self.wf(),
        ensures
            r@.no_duplicates(),
            forall|nlri: IpNet| #[trigger] r@.contains(nlri) <==> self@.dom().contains(nlri),
    {
        let ghost s = self.table.entries@;
        let mut out: Vec<IpNet> = Vec::new();
        let mut i: usize = 0;
        while i < self.table.entries.len()
            invariant
                i <= s.len(),
                s == self.table.entries@,
                out@.len() == i,
                forall|j: int| 0 <= j < i ==> #[trigger] out@[j] == s[j].0,
            decreases s.len() - i,
        {
            out.push(self.table.entries[i].0);
            i += 1;
        }
        proof {
            lemma_map_of(s);
            assert forall|a: int, b: int| 0 <= a < out@.len() && 0 <= b < out@.len() && a
                != b implies out@[a] != out@[b] by {
                let (x, y) = if a < b {
                    (a, b)
                } else {
                    (b, a)
                };
                assert(s[x].0 != s[y].0);
            }
            assert forall|nlri: IpNet| #[trigger] out@.contains(nlri) <==> self@.dom().contains(
                nlri,
            ) by {
                if out@.contains(nlri) {
                    let j = choose|j: int| 0 <= j < out@.len() && out@[j] == nlri;
                    assert(s[j].0 == nlri);
                    assert(has_key(s, nlri));
                }
                if self@.dom().contains(nlri) {
                    assert(has_key(s, nlri));
                    let j = choose|j: int| 0 <= j < s.len() && (#[trigger] s[j]).0 == nlri;
                    assert(out@[j] == nlri);
                }
            }
        }
        out
    }

    /// The nexthops of a prefix, in the order in which its paths came.
    pub fn nexthops(&self, nlri: &IpNet) -> (r: Vec<IpAddr>)
        requires
            self.wf(),
        ensures
            r@ == nexthops_of(paths_of(self@, *nlri)),
    {
        let mut out: Vec<IpAddr> = Vec::new();
        match self.table.get(nlri) {
            Some(paths) => {
                let ghost want = nexthops_of(paths@);
                let mut i: usize = 0;
                while i < paths.len()
                    invariant
                        i <= paths@.len(),
                        want == nexthops_of(paths@),
                        out@ == want.take(i as int),
                    decreases paths@.len() - i,
                {
                    out.push(paths[i].1);
                    i += 1;
                    assert(out@ =~= want.take(i as int));
                }
                assert(want.take(want.len() as int) =~= want);
            },
            None => {
                assert(out@ =~= nexthops_of(Seq::empty()));
            },
        }
        out
    }
}

/// At most as many nexthops as a FIB entry takes; the rest is ignored.
pub open spec fn usable(nexthops: Seq<Nexthop>) -> Seq<Nexthop> {
    if nexthops.len() <= MAX_NEXTHOPS {
        nexthops
    } else {
        nexthops.take(MAX_NEXTHOPS as int)
    }
}

/// Equal shares of the denominator; what does not divide evenly goes to the
/// nexthops one by one, first to last.
pub open spec fn equal_shares(nexthops: Seq<Nexthop>) -> Seq<WeightedNexthop> {
    Seq::new(
        nexthops.len(),
        |i: int|
            WeightedNexthop {
                nexthop: nexthops[i],
                weight: (WEIGHT_DENOMINATOR as int / nexthops.len() as int + if i
                    < WEIGHT_DENOMINATOR as int % nexthops.len() as int {
                    1int
                } else {
                    0
                }) as u16,
            },
    )
}

/// Equal shares make a FIB entry: they add up to the denominator, none is zero,
/// and no two differ by more than one.
pub proof fn law_equal_shares(nexthops: Seq<Nexthop>)
    requires
        1 <= nexthops.len() <= MAX_NEXTHOPS,
    ensures
        fib_error(equal_shares(nexthops)) is None,
        forall|i: int, j: int|
            0 <= i < j < nexthops.len() ==> (#[trigger] equal_shares(nexthops)[i]).weight - 1 <= (
            #[trigger] equal_shares(nexthops)[j]).weight <= equal_shares(nexthops)[i].weight,
{
    let s = equal_shares(nexthops);
    reveal_with_fuel(weight_sum, 5);
    let n = nexthops.len() as int;
    assert(n == 1 ==> 10_000int / n == 10_000 && 10_000int % n == 0) by (nonlinear_arith);
    assert(n == 2 ==> 10_000int / n == 5_000 && 10_000int % n == 0) by (nonlinear_arith);
    assert(n == 3 ==> 10_000int / n == 3_333 && 10_000int % n == 1) by (nonlinear_arith);
    assert(n == 4 ==> 10_000int / n == 2_500 && 10_000int % n == 0) by (nonlinear_arith);
    if s.len() == 1 {
        assert(s[0].weight == 10_000);
        assert(s.drop_last() =~= Seq::empty());
    } else if s.len() == 2 {
        assert(s[0].weight == 5_000 && s[1].weight == 5_000);
        assert(s.drop_last().drop_last() =~= Seq::empty());
    } else if s.len() == 3 {
        assert(s[0].weight == 3_334 && s[1].weight == 3_333 && s[2].weight == 3_333);
        assert(s.drop_last().drop_last().drop_last() =~= Seq::empty());
    } else {
        assert(s.len() == 4);
        assert(s[0].weight == 2_500 && s[1].weight == 2_500 && s[2].weight == 2_500
            && s[3].weight == 2_500);
        assert(s.drop_last().drop_last().drop_last().drop_last() =~= Seq::empty());
    }
    assert forall|i: int| 0 <= i < s.len() implies (#[trigger] s[i]).weight != 0 by {
        assert(i == 0 || i == 1 || i == 2 || i == 3);
    }
    assert(!some_zero(s));
    assert forall|i: int, j: int| 0 <= i < j < nexthops.len() implies (
    #[trigger] s[i]).weight - 1 <= (#[trigger] s[j]).weight <= s[i].weight by {
        assert(i == 0 || i == 1 || i == 2);
        assert(j == 1 || j == 2 || j == 3);
    }
}

/// The FIB entry that shares traffic equally among nexthops, none where there
/// are no nexthops.
pub open spec fn balanced(nexthops: Seq<Nexthop>) -> Option<Seq<WeightedNexthop>> {
    if nexthops.len() == 0 {
        None
    } else {
        Some(sorted(equal_shares(usable(nexthops))))
    }
}

/// Shares traffic equally among nexthops. It never fails.
pub fn balance_equally(nexthops: &Vec<IpAddr>) -> (r: Result<Option<FibEntry>, FibError>)
    ensures
        match r {
            Ok(Some(entry)) => balanced(nexthops@) == Some(entry@),
            Ok(None) => balanced(nexthops@) is None,
            Err(_) => false,
        },
        r is Ok,
        r->Ok_0 is None <==> nexthops@.len() == 0,
        r->Ok_0 is Some ==> {
            let entry = r->Ok_0->0@;
            let n: int = if nexthops@.len() < 4 {
                nexthops@.len() as int
            } else {
                4
            };
            &&& entry.len() == n
            &&& entry.map_values(|w: WeightedNexthop| w.nexthop).to_multiset() == nexthops@.take(
                n,
            ).to_multiset()
            &&& forall|i: int|
                0 <= i < n ==> (#[trigger] entry[i]).weight * n <= 10_000 + n && 10_000
                    < entry[i].weight * n + n
        },
{
    let n: usize = if nexthops.len() < MAX_NEXTHOPS {
        nexthops.len()
    } else {
        MAX_NEXTHOPS
    };
    if n == 0 {
        return Ok(None);
    }
    proof {
        law_traffic_is_shared_among_the_nexthops(nexthops@);
    }
    let ghost picked = usable(nexthops@);
    // The remainder is spread across the nexthops, first to last.
    let base_weight: u16 = WEIGHT_DENOMINATOR / n as u16;
    let remainder: usize = (WEIGHT_DENOMINATOR % n as u16) as usize;
    let mut weighted: Vec<WeightedNexthop> = Vec::new();
    let mut i: usize = 0;
    while i < n
        invariant
            1 <= n <= 4,
            n <= nexthops@.len(),
            i <= n,
            picked == usable(nexthops@),
            picked.len() == n,
            base_weight == WEIGHT_DENOMINATOR as int / n as int,
            remainder == WEIGHT_DENOMINATOR as int % n as int,
            base_weight <= 10_000,
            weighted@ == equal_shares(picked).take(i as int),
        decreases n - i,
    {
        let extra: u16 = if i < remainder {
            1
        } else {
            0
        };
        weighted.push(WeightedNexthop { nexthop: nexthops[i], weight: base_weight + extra });
        i += 1;
        assert(weighted@ =~= equal_shares(picked).take(i as int));
    }
    proof {
        assert(equal_shares(picked).take(n as int) =~= equal_shares(picked));
        law_equal_shares(picked);
    }
    match FibEntry::new(weighted) {
        Ok(entry) => Ok(Some(entry)),
        Err(e) => Err(e),
    }
}

/// A change of the forwarding table.
#[derive(Clone, Debug)]
pub enum FibAction {
    /// Steer a prefix as the entry says.
    Insert { nlri: IpNet, entry: FibEntry },
    /// Steer a prefix no more.
    Delete { nlri: IpNet },
    /// Leave a prefix as it is, since there is no entry to be had for it.
    Rejected { nlri: IpNet, error: FibError },
}

/// What is done about a prefix.
pub enum Outcome {
    Insert(Seq<WeightedNexthop>),
    Delete,
    Rejected(FibError),
}

/// A [`FibAction`] over sequences.
pub struct ActionView {
    pub nlri: Nlri,
    pub outcome: Outcome,
}

impl View for FibAction {
    type V = ActionView;

    open spec fn view(&self) -> ActionView {
        match self {
            FibAction::Insert { nlri, entry } => ActionView {
                nlri: *nlri,
                outcome: Outcome::Insert(entry@),
            },
            FibAction::Delete { nlri } => ActionView { nlri: *nlri, outcome: Outcome::Delete },
            FibAction::Rejected { nlri, error } => ActionView {
                nlri: *nlri,
                outcome: Outcome::Rejected(*error),
            },
        }
    }
}

/// The views of actions.
pub open spec fn action_views(list: Seq<FibAction>) -> Seq<ActionView> {
    list.map_values(|a: FibAction| a@)
}

/// What follows for the forwarding table from the routes of a prefix.
pub open spec fn action_for(table: Map<Nlri, Seq<Path>>, nlri: Nlri) -> ActionView {
    ActionView {
        nlri,
        outcome: match balanced(nexthops_of(paths_of(table, nlri))) {
            Some(entry) => Outcome::Insert(entry),
            None => Outcome::Delete,
        },
    }
}

/// One step of a BGP update.
pub enum Change {
    Announce(Route, Nexthop),
    Withdraw(Route),
}

impl Change {
    /// The prefix that it is about.
    pub open spec fn nlri(self) -> Nlri {
        match self {
            Change::Announce(route, _) => route.nlri,
            Change::Withdraw(route) => route.nlri,
        }
    }
}

/// The announcements of one nexthop, in order.
pub open spec fn announces(a: AnnouncementView) -> Seq<Change> {
    a.routes.map_values(|route: Route| Change::Announce(route, a.nexthop))
}

/// All announcements, in order.
pub open spec fn all_announces(list: Seq<AnnouncementView>) -> Seq<Change>
    decreases list.len(),
{
    if list.len() == 0 {
        Seq::empty()
    } else {
        all_announces(list.drop_last()) + announces(list.last())
    }
}

/// The steps of an update: announcements first, then withdrawals.
pub open spec fn changes(update: UpdateView) -> Seq<Change> {
    all_announces(update.announcements) + update.withdrawals.map_values(
        |route: Route| Change::Withdraw(route),
    )
}

/// The table after one step.
pub open spec fn changed(table: Map<Nlri, Seq<Path>>, change: Change) -> Map<Nlri, Seq<Path>> {
    match change {
        Change::Announce(route, nexthop) => inserted(table, route, nexthop),
        Change::Withdraw(route) => removed(table, route),
    }
}

/// The table after steps.
pub open spec fn after(table: Map<Nlri, Seq<Path>>, list: Seq<Change>) -> Map<Nlri, Seq<Path>>
    decreases list.len(),
{
    if list.len() == 0 {
        table
    } else {
        changed(after(table, list.drop_last()), list.last())
    }
}

/// What follows for the forwarding table from steps: after each of them, what
/// follows from the routes that its prefix then has.
pub open spec fn actions(table: Map<Nlri, Seq<Path>>, list: Seq<Change>) -> Seq<ActionView>
    decreases list.len(),
{
    if list.len() == 0 {
        Seq::empty()
    } else {
        actions(table, list.drop_last()).push(action_for(after(table, list), list.last().nlri()))
    }
}

/// The forwarding table after an action.
pub open spec fn acted(
    fib: Map<Nlri, Seq<WeightedNexthop>>,
    action: ActionView,
) -> Map<Nlri, Seq<WeightedNexthop>> {
    match action.outcome {
        Outcome::Insert(entry) => fib.insert(action.nlri, entry),
        Outcome::Delete => fib.remove(action.nlri),
        Outcome::Rejected(_) => fib,
    }
}

/// The forwarding table after actions.
pub open spec fn acted_all(
    fib: Map<Nlri, Seq<WeightedNexthop>>,
    list: Seq<ActionView>,
) -> Map<Nlri, Seq<WeightedNexthop>>
    decreases list.len(),
{
    if list.len() == 0 {
        fib
    } else {
        acted(acted_all(fib, list.drop_last()), list.last())
    }
}

/// The forwarding table in which every prefix shares its traffic equally among
/// its nexthops.
pub open spec fn balanced_fib(table: Map<Nlri, Seq<Path>>) -> Map<Nlri, Seq<WeightedNexthop>> {
    Map::new(
        |nlri: Nlri| table.dom().contains(nlri),
        |nlri: Nlri| balanced(nexthops_of(table[nlri]))->0,
    )
}

/// The routes stay valid through an update.
pub proof fn law_updates_keep_table_valid(table: Map<Nlri, Seq<Path>>, list: Seq<Change>)
    requires
        valid_table(table),
    ensures
        valid_table(after(table, list)),
    decreases list.len(),
{
    if list.len() > 0 {
        law_updates_keep_table_valid(table, list.drop_last());
        match list.last() {
            Change::Announce(route, nexthop) => {
                law_table_stays_valid(after(table, list.drop_last()), route, nexthop);
            },
            Change::Withdraw(route) => {
                law_table_stays_valid(
                    after(table, list.drop_last()),
                    route,
                    IpAddr::V4(arbitrary()),
                );
            },
        }
    }
}

/// The forwarding table follows the routes: where it shared traffic as the routes
/// say, it does so again once what follows from an update has been done.
pub proof fn law_fib_follows_rib(table: Map<Nlri, Seq<Path>>, list: Seq<Change>)
    requires
        valid_table(table),
    ensures
        acted_all(balanced_fib(table), actions(table, list)) == balanced_fib(after(table, list)),
    decreases list.len(),
{
    let fib = balanced_fib(table);
    if list.len() > 0 {
        let head = list.drop_last();
        let before = after(table, head);
        let now = after(table, list);
        let nlri = list.last().nlri();
        law_fib_follows_rib(table, head);
        law_updates_keep_table_valid(table, list);
        assert(actions(table, list).drop_last() =~= actions(table, head));
        let action = action_for(now, nlri);
        assert(acted_all(fib, actions(table, list)) == acted(balanced_fib(before), action));
        assert forall|n: Nlri| n != nlri implies now.dom().contains(n) == before.dom().contains(n)
            && now[n] == before[n] by {}
        if now.dom().contains(nlri) {
            assert(now[nlri].len() > 0);
            assert(nexthops_of(paths_of(now, nlri)).len() > 0);
        } else {
            assert(nexthops_of(paths_of(now, nlri)).len() == 0);
        }
        assert(acted(balanced_fib(before), action) =~= balanced_fib(now));
    } else {
        assert(acted_all(fib, actions(table, list)) =~= balanced_fib(after(table, list)));
    }
}

/// What is done about a prefix whose traffic is to be shared as given.
pub open spec fn outcome_of(shares: Seq<Share>) -> Outcome {
    match fib_error(apportioned(shares)) {
        Some(error) => Outcome::Rejected(error),
        None => Outcome::Insert(sorted(apportioned(shares))),
    }
}

/// What is next for a prefix when traffic is steered by measurements.
#[derive(Clone, Debug)]
pub enum Steering {
    /// Take a step of the descent from here.
    Weigh(StepPlan),
    /// Change the forwarding table.
    Act(FibAction),
}

/// Decides about the forwarding table.
#[derive(Clone, Debug)]
pub struct Controller {
    /// The routes that are known.
    pub rib: Rib,
    /// The weights that measurements have led to.
    pub descent: Descent,
}

impl Controller {
    /// Routes and weights are as their types want them.
    pub open spec fn wf(self) -> bool {
        self.rib.wf() && self.descent.wf()
    }

    /// No routes and no weights.
    pub fn new() -> (r: Controller)
        ensures
            r.wf(),
            r.rib@ == Map::<Nlri, Seq<Path>>::empty(),
            r.descent@ == Map::<Nlri, Map<Nexthop, u64>>::empty(),
    {
        Controller { rib: Rib::new(), descent: Descent::new() }
    }

    /// What follows for the forwarding table from the routes of a prefix.
    pub fn update_fib(&self, nlri: IpNet) -> (r: FibAction)
        requires
            self.wf(),
        ensures
            r@ == action_for(self.rib@, nlri),
    {
        let nexthops = self.rib.nexthops(&nlri);
        match balance_equally(&nexthops) {
            Ok(Some(entry)) => FibAction::Insert { nlri, entry },
            Ok(None) => FibAction::Delete { nlri },
            Err(error) => FibAction::Rejected { nlri, error },
        }
    }

    /// Takes in a BGP update and tells what follows for the forwarding table.
    pub fn on_update(&mut self, update: &Update) -> (r: Vec<FibAction>)
        requires
            old(self).wf(),
        ensures
            final(self).wf(),
            final(self).rib@ == after(old(self).rib@, changes(update@)),
            final(self).descent == old(self).descent,
            action_views(r@) == actions(old(self).rib@, changes(update@)),
    {
        let ghost start = self.rib@;
        let ghost descent = self.descent;
        let ghost anns = update@.announcements;
        let mut out: Vec<FibAction> = Vec::new();
        let mut i: usize = 0;
        proof {
            assert(anns.take(0) =~= Seq::empty());
            assert(action_views(out@) =~= Seq::empty());
        }
        while i < update.announcements.len()
            invariant
                i <= update.announcements@.len(),
                self.wf(),
                self.descent == descent,
                anns == update@.announcements,
                self.rib@ == after(start, all_announces(anns.take(i as int))),
                action_views(out@) == actions(start, all_announces(anns.take(i as int))),
            decreases update.announcements@.len() - i,
        {
            let announcement = &update.announcements[i];
            let ghost done = all_announces(anns.take(i as int));
            let ghost more = announces(announcement@);
            let mut k: usize = 0;
            assert(done + more.take(0) =~= done);
            while k < announcement.routes.len()
                invariant
                    k <= announcement.routes@.len(),
                    more == announces(announcement@),
                    self.wf(),
                    self.descent == descent,
                    self.rib@ == after(start, done + more.take(k as int)),
                    action_views(out@) == actions(start, done + more.take(k as int)),
                decreases announcement.routes@.len() - k,
            {
                let route = &announcement.routes[k];
                let ghost so_far = out@;
                let ghost list = done + more.take(k + 1);
                proof {
                    assert(list.drop_last() =~= done + more.take(k as int));
                    assert(list.last() == Change::Announce(*route, announcement.nexthop));
                }
                self.rib.insert(route, &announcement.nexthop);
                let action = self.update_fib(route.nlri);
                out.push(action);
                assert(action_views(out@) =~= action_views(so_far).push(action@));
                k += 1;
            }
            proof {
                assert(more.take(more.len() as int) =~= more);
                assert(anns[i as int] == announcement@);
                assert(anns.take(i + 1).drop_last() =~= anns.take(i as int));
            }
            i += 1;
        }
        let ghost done = all_announces(anns);
        let ghost more = update.withdrawals@.map_values(|route: Route| Change::Withdraw(route));
        let mut w: usize = 0;
        proof {
            assert(anns.take(anns.len() as int) =~= anns);
            assert(done + more.take(0) =~= done);
        }
        while w < update.withdrawals.len()
            invariant
                w <= update.withdrawals@.len(),
                more == update.withdrawals@.map_values(|route: Route| Change::Withdraw(route)),
                self.wf(),
                self.descent == descent,
                self.rib@ == after(start, done + more.take(w as int)),
                action_views(out@) == actions(start, done + more.take(w as int)),
            decreases update.withdrawals@.len() - w,
        {
            let route = &update.withdrawals[w];
            let ghost so_far = out@;
            let ghost list = done + more.take(w + 1);
            proof {
                assert(list.drop_last() =~= done + more.take(w as int));
                assert(list.last() == Change::Withdraw(*route));
            }
            self.rib.remove(route);
            let action = self.update_fib(route.nlri);
            out.push(action);
            assert(action_views(out@) =~= action_views(so_far).push(action@));
            w += 1;
        }
        assert(more.take(more.len() as int) =~= more);
        out
    }

    /// What is next for a prefix when traffic is steered by measurements: a
    /// step of the descent for the nexthops that a FIB entry takes, or, where it
    /// has none, to steer it no more.
    pub fn steer_fib(&mut self, nlri: IpNet, snapshot: &TcpRttSnapshot) -> (r: Steering)
        requires
            old(self).wf(),
            snapshot.wf(),
        ensures
            final(self).wf(),
            final(self).rib@ == old(self).rib@,
            ({
                let nexthops = usable(nexthops_of(paths_of(old(self).rib@, nlri)));
                match r {
                    Steering::Weigh(plan) => nexthops.len() > 0 && final(self).descent@ == old(
                        self,
                    ).descent@ && planned(
                        plan,
                        weights_of(old(self).descent@, nlri),
                        nexthops,
                        snapshot@,
                        nlri,
                    ),
                    Steering::Act(action) => nexthops.len() == 0 && final(self).descent@ == old(
                        self,
                    ).descent@.remove(nlri) && action@ == (ActionView {
                        nlri,
                        outcome: Outcome::Delete,
                    }),
                }
            }),
    {
        let mut nexthops = self.rib.nexthops(&nlri);
        let ghost all = nexthops@;
        if nexthops.len() > MAX_NEXTHOPS {
            nexthops.truncate(MAX_NEXTHOPS);
        }
        assert(nexthops@ =~= usable(all));
        match self.descent.step(nlri, &nexthops, snapshot) {
            Some(plan) => Steering::Weigh(plan),
            None => Steering::Act(FibAction::Delete { nlri }),
        }
    }

    /// What follows for the forwarding table from the weights that a step has
    /// led to, which are kept for the next one.
    pub fn steered(
        &mut self,
        nlri: IpNet,
        weights: &Vec<(IpAddr, u64)>,
        shares: &Vec<Share>,
    ) -> (r: FibAction)
        requires
            old(self).wf(),
            apportionable(shares@),
        ensures
            final(self).wf(),
            final(self).rib@ == old(self).rib@,
            final(self).descent@ == old(self).descent@.insert(nlri, map_of(weights@)),
            r@ == (ActionView {
                nlri,
                outcome: match fib_error(apportioned(shares@)) {
                    Some(error) => Outcome::Rejected(error),
                    None => Outcome::Insert(sorted(apportioned(shares@))),
                },
            }),
            r@ == (ActionView { nlri, outcome: outcome_of(shares@) }),
    {
        self.descent.store(nlri, weights);
        match FibEntry::new(quantise(shares)) {
            Ok(entry) => FibAction::Insert { nlri, entry },
            Err(error) => FibAction::Rejected { nlri, error },
        }
    }
}

/// Withdrawing a route leaves every other path: what its prefix has afterwards is
/// what it had before, in its order, without the path that has the route's id. A
/// prefix that is left without paths is known no more, and all other prefixes stay
/// as they were.
pub proof fn law_remove_keeps_other_paths(table: Map<Nlri, Seq<Path>>, route: Route)
    ensures
        paths_of(removed(table, route), route.nlri) == paths_of(table, route.nlri).filter(
            |p: Path| p.0 != route.path_id,
        ),
        forall|p: Path|
            p.0 != route.path_id ==> (#[trigger] paths_of(removed(table, route), route.nlri).contains(
                p,
            ) <==> paths_of(table, route.nlri).contains(p)),
        forall|p: Path| #[trigger]
            paths_of(removed(table, route), route.nlri).contains(p) ==> p.0 != route.path_id,
        removed(table, route).dom().contains(route.nlri) <==> exists|p: Path|
            p.0 != route.path_id && #[trigger] paths_of(table, route.nlri).contains(p),
        removed(table, route).remove(route.nlri) == table.remove(route.nlri),
{
    let pred = |p: Path| p.0 != route.path_id;
    let paths = paths_of(table, route.nlri);
    assert(is_other(route.path_id) =~= pred);
    paths.filter_lemma(pred);
    lemma_others(paths, route.path_id);
    let rest = paths.filter(pred);
    assert(rest == others(paths, route.path_id));
    let now = removed(table, route);
    assert(paths_of(now, route.nlri) =~= rest);
    assert forall|p: Path| #[trigger] paths_of(now, route.nlri).contains(p) implies p.0
        != route.path_id by {
        let i = choose|i: int| 0 <= i < rest.len() && rest[i] == p;
        assert(pred(rest[i]));
    }
    assert forall|p: Path| p.0 != route.path_id implies (#[trigger] paths_of(
        now,
        route.nlri,
    ).contains(p) <==> paths.contains(p)) by {
        assert(pred(p));
        if rest.contains(p) {
            let i = choose|i: int| 0 <= i < rest.len() && rest[i] == p;
            assert(paths.contains(rest[i]));
        }
        if paths.contains(p) {
            let i = choose|i: int| 0 <= i < paths.len() && paths[i] == p;
            assert(pred(paths[i]));
            assert(rest.contains(paths[i]));
        }
    }
    if rest.len() > 0 {
        assert(paths.contains(rest[0]));
    } else {
        assert forall|p: Path| #[trigger] paths.contains(p) implies p.0 == route.path_id by {
            if p.0 != route.path_id {
                assert(paths_of(now, route.nlri).contains(p));
            }
        }
    }
    assert(now.remove(route.nlri) =~= table.remove(route.nlri));
}

/// Withdrawing a path that is not there changes nothing.
pub proof fn law_remove_of_unknown_path(table: Map<Nlri, Seq<Path>>, route: Route)
    requires
        valid_table(table),
        forall|p: Path| #[trigger]
            paths_of(table, route.nlri).contains(p) ==> p.0 != route.path_id,
    ensures
        removed(table, route) == table,
{
    let paths = paths_of(table, route.nlri);
    lemma_nothing_filtered(paths, route.path_id);
    assert(removed(table, route) =~= table);
}

proof fn lemma_nothing_filtered(paths: Seq<Path>, path_id: PathId)
    requires
        forall|p: Path| #[trigger] paths.contains(p) ==> p.0 != path_id,
    ensures
        others(paths, path_id) == paths,
    decreases paths.len(),
{
    reveal(Seq::filter);
    if paths.len() > 0 {
        let t = paths.drop_last();
        assert forall|p: Path| #[trigger] t.contains(p) implies p.0 != path_id by {
            let i = choose|i: int| 0 <= i < t.len() && t[i] == p;
            assert(paths[i] == p);
            assert(paths.contains(p));
        }
        lemma_nothing_filtered(t, path_id);
        assert(paths.contains(paths[paths.len() - 1]));
        assert(t.push(paths.last()) =~= paths);
    }
}

/// Announcing a route puts its path behind the others of its prefix, which stay in
/// their order; the path that had its id gives way to it, and all other prefixes
/// stay as they were.
pub proof fn law_insert_keeps_other_paths(
    table: Map<Nlri, Seq<Path>>,
    route: Route,
    nexthop: Nexthop,
)
    ensures
        inserted(table, route, nexthop).dom().contains(route.nlri),
        inserted(table, route, nexthop)[route.nlri] == paths_of(table, route.nlri).filter(
            |p: Path| p.0 != route.path_id,
        ).push((route.path_id, nexthop)),
        forall|p: Path|
            p.0 != route.path_id ==> (#[trigger] inserted(table, route, nexthop)[route.nlri].contains(
                p,
            ) <==> paths_of(table, route.nlri).contains(p)),
        forall|p: Path| #[trigger]
            inserted(table, route, nexthop)[route.nlri].contains(p) && p.0 == route.path_id ==> p.1
                == nexthop,
        inserted(table, route, nexthop).remove(route.nlri) == table.remove(route.nlri),
{
    let pred = |p: Path| p.0 != route.path_id;
    let paths = paths_of(table, route.nlri);
    assert(is_other(route.path_id) =~= pred);
    law_remove_keeps_other_paths(table, route);
    let rest = paths.filter(pred);
    let now = inserted(table, route, nexthop);
    let all = rest.push((route.path_id, nexthop));
    assert(now[route.nlri] == all);
    assert(paths_of(removed(table, route), route.nlri) == rest);
    assert forall|p: Path| #[trigger] now[route.nlri].contains(p) implies (p.0 == route.path_id
        ==> p.1 == nexthop) && (p.0 != route.path_id ==> paths.contains(p)) by {
        let i = choose|i: int| 0 <= i < all.len() && all[i] == p;
        if i < rest.len() {
            assert(rest[i] == p);
            assert(rest.contains(p));
            assert(paths_of(removed(table, route), route.nlri).contains(p));
        }
    }
    assert forall|p: Path| p.0 != route.path_id && paths.contains(p) implies #[trigger] now[route.nlri].contains(
        p,
    ) by {
        assert(paths_of(removed(table, route), route.nlri).contains(p));
        let i = choose|i: int| 0 <= i < rest.len() && rest[i] == p;
        assert(all[i] == p);
    }
    assert(now.remove(route.nlri) =~= table.remove(route.nlri));
}

/// What the routes of a prefix are: those that the table lists, in its order, and
/// none where it lists the prefix not at all; and the nexthops are those of the
/// paths, one by one.
pub proof fn law_nexthops_are_those_of_the_paths(table: Map<Nlri, Seq<Path>>, nlri: Nlri)
    ensures
        table.dom().contains(nlri) ==> paths_of(table, nlri) == table[nlri],
        !table.dom().contains(nlri) ==> paths_of(table, nlri).len() == 0,
        nexthops_of(paths_of(table, nlri)).len() == paths_of(table, nlri).len(),
        forall|i: int|
            0 <= i < paths_of(table, nlri).len() ==> #[trigger] nexthops_of(
                paths_of(table, nlri),
            )[i] == paths_of(table, nlri)[i].1,
{
}

/// The nexthops that are used are the first four, or all where there are no more.
pub proof fn law_first_four_are_usable(nexthops: Seq<Nexthop>)
    ensures
        nexthops.len() <= 4 ==> usable(nexthops) == nexthops,
        nexthops.len() > 4 ==> usable(nexthops).len() == 4,
        forall|i: int|
            0 <= i < nexthops.len() && i < 4 ==> #[trigger] usable(nexthops)[i] == nexthops[i],
{
}

/// The shares belong to the nexthops that were given: the i-th share has the i-th
/// nexthop, and what there is in excess of even shares goes to the first ones.
pub proof fn law_shares_follow_the_nexthops(nexthops: Seq<Nexthop>)
    requires
        1 <= nexthops.len() <= 4,
    ensures
        equal_shares(nexthops).len() == nexthops.len(),
        forall|i: int|
            0 <= i < nexthops.len() ==> (#[trigger] equal_shares(nexthops)[i]).nexthop
                == nexthops[i],
        equal_shares(nexthops).map_values(|w: WeightedNexthop| w.nexthop) == nexthops,
        forall|i: int|
            0 <= i < nexthops.len() ==> (#[trigger] equal_shares(nexthops)[i]).weight
                * nexthops.len() <= 10_000 + nexthops.len() && 10_000 < equal_shares(
                nexthops,
            )[i].weight * nexthops.len() + nexthops.len(),
        forall|i: int, j: int|
            0 <= i < j < nexthops.len() ==> (#[trigger] equal_shares(nexthops)[i]).weight >= (
            #[trigger] equal_shares(nexthops)[j]).weight,
{
    let s = equal_shares(nexthops);
    law_equal_shares(nexthops);
    assert(s.map_values(|w: WeightedNexthop| w.nexthop) =~= nexthops);
    let n = nexthops.len() as int;
    assert(n == 1 ==> 10_000int / n == 10_000 && 10_000int % n == 0) by (nonlinear_arith);
    assert(n == 2 ==> 10_000int / n == 5_000 && 10_000int % n == 0) by (nonlinear_arith);
    assert(n == 3 ==> 10_000int / n == 3_333 && 10_000int % n == 1) by (nonlinear_arith);
    assert(n == 4 ==> 10_000int / n == 2_500 && 10_000int % n == 0) by (nonlinear_arith);
    assert forall|i: int| 0 <= i < n implies (#[trigger] s[i]).weight * nexthops.len() <= 10_000
        + nexthops.len() && 10_000 < s[i].weight * nexthops.len() + nexthops.len() by {
        let w = s[i].weight as int;
        assert(n == 1 || n == 2 || n == 3 || n == 4);
        assert(w * n <= 10_000 + n && 10_000 < w * n + n) by (nonlinear_arith)
            requires
                (n == 1 && w == 10_000) || (n == 2 && w == 5_000) || (n == 3 && (w == 3_333 || w
                    == 3_334)) || (n == 4 && w == 2_500),
        ;
    }
}

/// The entry of a prefix holds its first four nexthops, each as often as it was
/// given, with shares that differ by one at most and make up the whole; only a
/// prefix without nexthops has none.
pub proof fn law_traffic_is_shared_among_the_nexthops(nexthops: Seq<Nexthop>)
    ensures
        nexthops.len() == 0 <==> balanced(nexthops) is None,
        nexthops.len() > 0 ==> {
            let entry = balanced(nexthops)->0;
            let n: int = if nexthops.len() < 4 {
                nexthops.len() as int
            } else {
                4
            };
            &&& entry.len() == n
            &&& entry.map_values(|w: WeightedNexthop| w.nexthop).to_multiset() == nexthops.take(
                n,
            ).to_multiset()
            &&& forall|i: int|
                0 <= i < n ==> (#[trigger] entry[i]).weight * n <= 10_000 + n && 10_000
                    < entry[i].weight * n + n
            &&& weight_sum(entry) == 10_000
            &&& entry.to_multiset() == equal_shares(nexthops.take(n)).to_multiset()
            &&& forall|i: int, j: int|
                0 <= i < j < n ==> mapped_bits((#[trigger] entry[i]).nexthop) <= mapped_bits(
                    (#[trigger] entry[j]).nexthop,
                )
        },
{
    if nexthops.len() > 0 {
        let picked = usable(nexthops);
        let n = picked.len() as int;
        let shares = equal_shares(picked);
        let entry = sorted(shares);
        assert(picked =~= nexthops.take(n));
        law_shares_follow_the_nexthops(picked);
        law_equal_shares(picked);
        law_sorted(shares);
        law_sorted_keeps_nexthops(shares);
        assert forall|i: int| 0 <= i < n implies (#[trigger] entry[i]).weight * n <= 10_000 + n
            && 10_000 < entry[i].weight * n + n by {
            broadcast use vstd::seq_lib::group_to_multiset_ensures;

            assert(entry.contains(entry[i]));
            assert(entry.to_multiset().count(entry[i]) > 0);
            assert(shares.contains(entry[i]));
            let k = choose|k: int| 0 <= k < shares.len() && shares[k] == entry[i];
            assert(shares[k].weight == entry[i].weight);
        }
        assert forall|i: int, j: int| 0 <= i < j < n implies mapped_bits(
            (#[trigger] entry[i]).nexthop,
        ) <= mapped_bits((#[trigger] entry[j]).nexthop) by {
            law_sorted_ascends(shares, i, j);
        }
    }
}

/// What an update does: one announcement for every route, with the nexthop of the
/// announcement that it stands in, then one withdrawal for every route withdrawn.
pub proof fn law_every_route_of_an_update_counts(
    s: Seq<AnnouncementView>,
    t: Seq<AnnouncementView>,
    a: AnnouncementView,
    withdrawals: Seq<Route>,
)
    ensures
        all_announces(Seq::empty()).len() == 0,
        all_announces(seq![a]).len() == a.routes.len(),
        forall|i: int|
            0 <= i < a.routes.len() ==> #[trigger] all_announces(seq![a])[i] == Change::Announce(
                a.routes[i],
                a.nexthop,
            ),
        all_announces(s + t) == all_announces(s) + all_announces(t),
        changes((UpdateView { announcements: s, withdrawals })).len() == all_announces(s).len()
            + withdrawals.len(),
        forall|i: int|
            0 <= i < all_announces(s).len() ==> #[trigger] changes(
                (UpdateView { announcements: s, withdrawals }),
            )[i] == all_announces(s)[i],
        forall|i: int|
            0 <= i < withdrawals.len() ==> changes(
                (UpdateView { announcements: s, withdrawals }),
            )[all_announces(s).len() + i] == Change::Withdraw(#[trigger] withdrawals[i]),
    decreases t.len(),
{
    assert(all_announces(Seq::empty()) =~= Seq::empty());
    assert(seq![a].drop_last() =~= Seq::empty());
    assert(all_announces(seq![a]) =~= announces(a));
    if t.len() == 0 {
        assert(s + t =~= s);
        assert(all_announces(s) + all_announces(t) =~= all_announces(s));
    } else {
        law_every_route_of_an_update_counts(s, t.drop_last(), a, withdrawals);
        assert((s + t).drop_last() =~= s + t.drop_last());
        assert(all_announces(s + t) =~= all_announces(s) + all_announces(t));
    }
}

/// Changes take effect one after the other: an announced route is then among the
/// routes of its prefix, a withdrawn one is not, and what is done in two goes is
/// what is done in one.
pub proof fn law_changes_take_effect_in_turn(
    table: Map<Nlri, Seq<Path>>,
    s: Seq<Change>,
    t: Seq<Change>,
    route: Route,
    nexthop: Nexthop,
)
    ensures
        after(table, Seq::empty()) == table,
        after(table, seq![Change::Announce(route, nexthop)]) == table.insert(
            route.nlri,
            paths_of(table, route.nlri).filter(|p: Path| p.0 != route.path_id).push(
                (route.path_id, nexthop),
            ),
        ),
        paths_of(after(table, seq![Change::Withdraw(route)]), route.nlri) == paths_of(
            table,
            route.nlri,
        ).filter(|p: Path| p.0 != route.path_id),
        after(table, seq![Change::Withdraw(route)]).remove(route.nlri) == table.remove(route.nlri),
        after(table, s + t) == after(after(table, s), t),
        actions(table, Seq::empty()).len() == 0,
        actions(table, s + t) == actions(table, s) + actions(after(table, s), t),
        actions(table, s).len() == s.len(),
    decreases s.len() + t.len(),
{
    let pred = |p: Path| p.0 != route.path_id;
    assert(is_other(route.path_id) =~= pred);
    reveal_with_fuel(after, 3);
    let one = seq![Change::Announce(route, nexthop)];
    assert(one.drop_last() =~= Seq::empty());
    assert(after(table, one) =~= inserted(table, route, nexthop));
    let none = seq![Change::Withdraw(route)];
    assert(none.drop_last() =~= Seq::empty());
    assert(after(table, none) =~= removed(table, route));
    law_remove_keeps_other_paths(table, route);
    if t.len() == 0 {
        assert(s + t =~= s);
        assert(actions(table, s) + actions(after(table, s), t) =~= actions(table, s));
        if s.len() > 0 {
            law_changes_take_effect_in_turn(table, s.drop_last(), t, route, nexthop);
        }
    } else {
        law_changes_take_effect_in_turn(table, s, t.drop_last(), route, nexthop);
        assert((s + t).drop_last() =~= s + t.drop_last());
        assert(actions(table, s + t) =~= actions(table, s) + actions(after(table, s), t));
    }
}

/// After each change its own prefix is looked at, with the routes that it has by
/// then: where it has any, an entry for its nexthops is put in place, and where it
/// has none, its entry goes.
pub proof fn law_each_change_is_followed(
    table: Map<Nlri, Seq<Path>>,
    list: Seq<Change>,
    i: int,
)
    requires
        0 <= i < list.len(),
    ensures
        actions(table, list).len() == list.len(),
        actions(table, list)[i].nlri == match list[i] {
            Change::Announce(route, _) => route.nlri,
            Change::Withdraw(route) => route.nlri,
        },
        ({
            let now = after(table, list.take(i + 1));
            let nlri = actions(table, list)[i].nlri;
            match actions(table, list)[i].outcome {
                Outcome::Insert(entry) => now.dom().contains(nlri) && now[nlri].len() > 0 && balanced(
                    now[nlri].map_values(|p: Path| p.1),
                ) == Some(entry),
                Outcome::Delete => !now.dom().contains(nlri) || now[nlri].len() == 0,
                Outcome::Rejected(_) => false,
            }
        }),
    decreases list.len(),
{
    let head = list.drop_last();
    let first = actions(table, head);
    law_changes_take_effect_in_turn(
        table,
        head,
        Seq::empty(),
        arbitrary(),
        arbitrary(),
    );
    assert(first.len() == head.len());
    assert(actions(table, list) == first.push(
        action_for(after(table, list), list.last().nlri()),
    ));
    if i < head.len() {
        law_each_change_is_followed(table, head, i);
        assert(actions(table, list)[i] == first[i]);
        assert(head.take(i + 1) =~= list.take(i + 1));
    } else {
        assert(list.take(i + 1) =~= list);
        let now = after(table, list);
        let nlri = list[i].nlri();
        if now.dom().contains(nlri) {
            assert(nexthops_of(now[nlri]) =~= now[nlri].map_values(|p: Path| p.1));
        }
        law_traffic_is_shared_among_the_nexthops(nexthops_of(paths_of(now, nlri)));
    }
}

/// The forwarding table does what it is told: an entry that is put in place is then
/// the entry of its prefix, a deleted prefix has none, and everything else stays.
pub proof fn law_actions_are_done(
    fib: Map<Nlri, Seq<WeightedNexthop>>,
    nlri: Nlri,
    entry: Seq<WeightedNexthop>,
    error: FibError,
    s: Seq<ActionView>,
    t: Seq<ActionView>,
)
    ensures
        acted(fib, (ActionView { nlri, outcome: Outcome::Insert(entry) })) == fib.insert(
            nlri,
            entry,
        ),
        acted(fib, (ActionView { nlri, outcome: Outcome::Delete })) == fib.remove(nlri),
        acted(fib, (ActionView { nlri, outcome: Outcome::Rejected(error) })) == fib,
        acted_all(fib, Seq::empty()) == fib,
        acted_all(fib, s + t) == acted_all(acted_all(fib, s), t),
    decreases t.len(),
{
    if t.len() == 0 {
        assert(s + t =~= s);
    } else {
        law_actions_are_done(fib, nlri, entry, error, s, t.drop_last());
        assert((s + t).drop_last() =~= s + t.drop_last());
    }
}

/// What is seen of the routes is what is stored: the paths of each prefix.
pub proof fn law_rib_shows_its_paths(rib: Rib)
    requires
        rib.wf(),
    ensures
        forall|i: int|
            0 <= i < rib.table.entries@.len() ==> rib@.dom().contains(
                (#[trigger] rib.table.entries@[i]).0,
            ) && rib@[rib.table.entries@[i].0] == rib.table.entries@[i].1@,
        forall|nlri: Nlri| #[trigger]
            rib@.dom().contains(nlri) ==> exists|i: int|
                0 <= i < rib.table.entries@.len() && (#[trigger] rib.table.entries@[i]).0 == nlri,
{
    law_pairs_are_the_map(rib.table.entries@);
}

/// What is seen of actions is what they say.
pub proof fn law_actions_show_their_fields(
    list: Seq<FibAction>,
    nlri: IpNet,
    entry: FibEntry,
    error: FibError,
)
    ensures
        (FibAction::Insert { nlri, entry })@ == (ActionView {
            nlri,
            outcome: Outcome::Insert(entry@),
        }),
        (FibAction::Delete { nlri })@ == (ActionView { nlri, outcome: Outcome::Delete }),
        (FibAction::Rejected { nlri, error })@ == (ActionView {
            nlri,
            outcome: Outcome::Rejected(error),
        }),
        action_views(list).len() == list.len(),
        forall|i: int| 0 <= i < list.len() ==> #[trigger] action_views(list)[i] == list[i]@,
{
}

/// Shares of one to four nexthops, none of which comes to nothing, make an entry that
/// holds those nexthops, each with its floor or one more, the whole being ten
/// thousand. Any others are refused and never lead to an entry being deleted.
pub proof fn law_shares_make_the_entry(shares: Seq<Share>)
    requires
        apportionable(shares),
    ensures
        !(outcome_of(shares) is Delete),
        shares.len() == 0 || shares.len() > 4 ==> outcome_of(shares) is Rejected,
        1 <= shares.len() <= 4 && (forall|i: int|
            0 <= i < shares.len() ==> (#[trigger] shares[i]).floor > 0) ==> outcome_of(shares) is Insert,
        outcome_of(shares) is Insert ==> {
            let entry = outcome_of(shares)->Insert_0;
            &&& entry.len() == shares.len()
            &&& weight_sum(entry) == 10_000
            &&& entry.map_values(|w: WeightedNexthop| w.nexthop).to_multiset() == shares.map_values(
                |s: Share| s.nexthop,
            ).to_multiset()
            &&& forall|i: int| 0 <= i < entry.len() ==> (#[trigger] entry[i]).weight > 0
        },
{
    let list = apportioned(shares);
    law_apportioned(shares);
    law_descending(shares);
    law_what_makes_an_entry(list);
    law_sorted(list);
    law_what_makes_an_entry(sorted(list));
    law_sorted_keeps_nexthops(list);
    law_apportioning_keeps_nexthops(shares);
    if 1 <= shares.len() <= 4 && (forall|i: int|
        0 <= i < shares.len() ==> (#[trigger] shares[i]).floor > 0) {
        assert(floors_from(shares, 1));
        law_shares_are_accepted(shares, 1);
    }
    if outcome_of(shares) is Insert {
        let entry = sorted(list);
        assert(fib_error(entry) is None);
    }
}

} // verus!
