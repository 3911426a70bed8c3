//! A BIRD routing daemon: what it is told to announce, and what it says about
//! its sessions and routes.

use vstd::prelude::*;
use vstd::utf8::{decode_utf8, encode_utf8, is_char_boundary};

use super::config::{Peer, PeerView, Route};
use crate::net::{net_of_text, parse_net, IpNet};
use crate::ns::{NetNs, Ns, NsBuilder, NsBuilderView};
use crate::text::{
    chars_of, find, first_at, first_index, first_word, first_word_of, is_white, is_whitespace,
    lemma_first_index, lines, lines_of, same, starts, starts_with, string_of, trim, trimmed, views,
};

verus! {

/// Where BIRD reads its configuration.
pub fn config_path() -> (r: &'static str)
    ensures
        r@ == "/etc/bird/bird.conf"@,
{
    "/etc/bird/bird.conf"
}

/// What a BIRD instance is configured with.
#[derive(Clone, Debug)]
pub struct Bird {
    /// Unique 32-bit router identifier.
    pub id: u32,
    /// Local autonomous system number.
    pub asn: u32,
    /// IPv4 static routes announced to BGP peers.
    pub routes_v4: Vec<Route>,
    /// IPv6 static routes announced to BGP peers.
    pub routes_v6: Vec<Route>,
    /// BGP peer sessions.
    pub peers: Vec<Peer>,
}

/// A [`Bird`] over sequences.
#[verifier::ext_equal]
pub struct BirdView {
    pub id: u32,
    pub asn: u32,
    pub routes_v4: Seq<Route>,
    pub routes_v6: Seq<Route>,
    pub peers: Seq<PeerView>,
}

impl View for Bird {
    type V = BirdView;

    open spec fn view(&self) -> BirdView {
        BirdView {
            id: self.id,
            asn: self.asn,
            routes_v4: self.routes_v4@,
            routes_v6: self.routes_v6@,
            peers: self.peers@.map_values(|p: Peer| p@),
        }
    }
}

/// The route is an IPv4 route.
pub open spec fn is_v4(route: Route) -> bool {
    route.prefix is V4
}

/// The routes of one family, in their order.
pub open spec fn of_family(v4: bool) -> spec_fn(Route) -> bool {
    |r: Route| is_v4(r) == v4
}

/// The routes to other prefixes, in their order.
pub open spec fn not_to(prefix: IpNet) -> spec_fn(Route) -> bool {
    |r: Route| r.prefix != prefix
}

/// The configuration with routes behind those of their families.
pub open spec fn announcing(bird: BirdView, routes: Seq<Route>) -> BirdView {
    BirdView {
        routes_v4: bird.routes_v4 + routes.filter(of_family(true)),
        routes_v6: bird.routes_v6 + routes.filter(of_family(false)),
        ..bird
    }
}

/// The configuration without the routes to a prefix.
pub open spec fn withdrawing(bird: BirdView, prefix: IpNet) -> BirdView {
    if prefix is V4 {
        BirdView { routes_v4: bird.routes_v4.filter(not_to(prefix)), ..bird }
    } else {
        BirdView { routes_v6: bird.routes_v6.filter(not_to(prefix)), ..bird }
    }
}

/// Every route stands among those of its family.
pub open spec fn routes_sorted(bird: BirdView) -> bool {
    &&& forall|i: int| 0 <= i < bird.routes_v4.len() ==> is_v4(#[trigger] bird.routes_v4[i])
    &&& forall|i: int| 0 <= i < bird.routes_v6.len() ==> !is_v4(#[trigger] bird.routes_v6[i])
}

/// Some session of BIRD is that of the peer, and it is up.
pub open spec fn established(protocols: Seq<ProtocolView>, peer: PeerView) -> bool {
    exists|i: int|
        0 <= i < protocols.len() && (#[trigger] protocols[i]).name == peer.name
            && protocols[i].proto == "BGP"@ && protocols[i].state == "Established"@
}

fn keep_others(routes: &Vec<Route>, prefix: IpNet) -> (r: Vec<Route>)
    ensures
        r@ == routes@.filter(not_to(prefix)),
{
    let mut out: Vec<Route> = Vec::new();
    let mut i: usize = 0;
    proof {
        assert(routes@.take(0) =~= Seq::empty());
        reveal(Seq::filter);
    }
    while i < routes.len()
        invariant
            i <= routes@.len(),
            out@ == routes@.take(i as int).filter(not_to(prefix)),
        decreases routes@.len() - i,
    {
        proof {
            reveal(Seq::filter);
            assert(routes@.take(i + 1).drop_last() =~= routes@.take(i as int));
            assert(routes@.take(i + 1).last() == routes@[i as int]);
        }
        if routes[i].prefix != prefix {
            out.push(routes[i]);
        }
        i += 1;
    }
    assert(routes@.take(routes@.len() as int) =~= routes@);
    out
}

/// Every peer has an established session.
pub open spec fn all_established(protocols: Seq<ProtocolView>, peers: Seq<PeerView>) -> bool {
    forall|i: int| 0 <= i < peers.len() ==> established(protocols, #[trigger] peers[i])
}

impl Bird {
    /// An instance without routes and sessions.
    pub fn new(id: u32, asn: u32) -> (r: Bird)
        ensures
            r@ == (BirdView {
                id,
                asn,
                routes_v4: Seq::empty(),
                routes_v6: Seq::empty(),
                peers: Seq::empty(),
            }),
    {
        let r = Bird {
            id,
            asn,
            routes_v4: Vec::new(),
            routes_v6: Vec::new(),
            peers: Vec::new(),
        };
        assert(r@.peers =~= Seq::empty());
        r
    }

    /// Adds a session.
    pub fn add_peer(&mut self, peer: Peer)
        ensures
            final(self)@ == (BirdView { peers: old(self)@.peers.push(peer@), ..old(self)@ }),
    {
        let ghost start = self@.peers;
        self.peers.push(peer);
        assert(self@.peers =~= start.push(peer@));
    }

    /// Announces a route.
    pub fn announce_route(&mut self, route: Route)
        ensures
            final(self)@ == announcing(old(self)@, seq![route]),
    {
        let ghost start = self@;
        match route.prefix {
            IpNet::V4(_) => self.routes_v4.push(route),
            IpNet::V6(_) => self.routes_v6.push(route),
        }
        proof {
            reveal_with_fuel(Seq::filter, 2);
            assert(seq![route].drop_last() =~= Seq::empty());
            assert(seq![route].filter(of_family(true)) =~= if is_v4(route) {
                seq![route]
            } else {
                Seq::empty()
            });
            assert(seq![route].filter(of_family(false)) =~= if is_v4(route) {
                Seq::empty()
            } else {
                seq![route]
            });
            assert(self@ =~= announcing(start, seq![route]));
        }
    }

    /// Announces routes.
    pub fn announce_routes(&mut self, routes: Vec<Route>)
        ensures
            final(self)@ == announcing(old(self)@, routes@),
    {
        let ghost start = self@;
        let mut i: usize = 0;
        proof {
            assert(routes@.take(0) =~= Seq::empty());
            reveal(Seq::filter);
            assert(start =~= announcing(start, routes@.take(0)));
        }
        while i < routes.len()
            invariant
                i <= routes@.len(),
                self@ == announcing(start, routes@.take(i as int)),
            decreases routes@.len() - i,
        {
            let route = routes[i];
            let ghost before = self@;
            match route.prefix {
                IpNet::V4(_) => self.routes_v4.push(route),
                IpNet::V6(_) => self.routes_v6.push(route),
            }
            proof {
                reveal(Seq::filter);
                let head = routes@.take(i as int);
                assert(routes@.take(i + 1).drop_last() =~= head);
                assert(routes@.take(i + 1).last() == route);
                let (a, b) = (head.filter(of_family(true)), head.filter(of_family(false)));
                assert((start.routes_v4 + a).push(route) =~= start.routes_v4 + a.push(route));
                assert((start.routes_v6 + b).push(route) =~= start.routes_v6 + b.push(route));
                assert(self@ =~= announcing(start, routes@.take(i + 1)));
            }
            i += 1;
        }
        assert(routes@.take(routes@.len() as int) =~= routes@);
    }

    /// Withdraws every route to a prefix.
    pub fn withdraw_route(&mut self, route: IpNet)
        ensures
            final(self)@ == withdrawing(old(self)@, route),
    {
        match route {
            IpNet::V4(_) => {
                self.routes_v4 = keep_others(&self.routes_v4, route);
            },
            IpNet::V6(_) => {
                self.routes_v6 = keep_others(&self.routes_v6, route);
            },
        }
    }

    /// Whether the sessions of all peers are up, going by what BIRD lists.
    pub fn all_peers_established(&self, protocols: &Vec<ProtocolEntry>) -> (r: bool)
        ensures
            r == (forall|i: int|
                0 <= i < self@.peers.len() ==> established(
                    protocol_views(protocols@),
                    #[trigger] self@.peers[i],
                )),
            r == all_established(protocol_views(protocols@), self@.peers),
    {
        let ghost listed = protocol_views(protocols@);
        let mut i: usize = 0;
        while i < self.peers.len()
            invariant
                i <= self.peers@.len(),
                listed == protocol_views(protocols@),
                forall|j: int| 0 <= j < i ==> established(listed, #[trigger] self@.peers[j]),
            decreases self.peers@.len() - i,
        {
            let mut up: bool = false;
            let mut k: usize = 0;
            while k < protocols.len()
                invariant
                    i < self.peers@.len(),
                    k <= protocols@.len(),
                    listed == protocol_views(protocols@),
                    up == exists|j: int|
                        0 <= j < k && (#[trigger] listed[j]).name == self.peers@[i as int].name@
                            && listed[j].proto == "BGP"@ && listed[j].state == "Established"@,
                decreases protocols@.len() - k,
            {
                let p = &protocols[k];
                assert(listed[k as int] == p@);
                if same(p.name.as_str(), self.peers[i].name.as_str()) && same(
                    p.proto.as_str(),
                    "BGP",
                ) && same(p.state.as_str(), "Established") {
                    up = true;
                }
                k += 1;
            }
            assert(self@.peers[i as int].name == self.peers@[i as int].name@);
            if !up {
                assert(!established(listed, self@.peers[i as int]));
                return false;
            }
            i += 1;
        }
        true
    }
}

/// Routes stay among those of their families, whatever is announced or withdrawn.
pub proof fn law_routes_stay_sorted(bird: BirdView, routes: Seq<Route>, prefix: IpNet)
    requires
        routes_sorted(bird),
    ensures
        routes_sorted(announcing(bird, routes)),
        routes_sorted(withdrawing(bird, prefix)),
{
    broadcast use {Seq::lemma_filter_pred, Seq::lemma_filter_contains};

    let a = announcing(bird, routes);
    let (x, y) = (routes.filter(of_family(true)), routes.filter(of_family(false)));
    assert forall|i: int| 0 <= i < a.routes_v4.len() implies is_v4(#[trigger] a.routes_v4[i]) by {
        if i >= bird.routes_v4.len() {
            assert(a.routes_v4[i] == x[i - bird.routes_v4.len()]);
            assert(of_family(true)(x[i - bird.routes_v4.len()]));
        }
    }
    assert forall|i: int| 0 <= i < a.routes_v6.len() implies !is_v4(#[trigger] a.routes_v6[i]) by {
        if i >= bird.routes_v6.len() {
            assert(a.routes_v6[i] == y[i - bird.routes_v6.len()]);
            assert(of_family(false)(y[i - bird.routes_v6.len()]));
        }
    }
    lemma_filter_keeps_family(bird.routes_v4, not_to(prefix), true);
    lemma_filter_keeps_family(bird.routes_v6, not_to(prefix), false);
}

proof fn lemma_filter_keeps_family(routes: Seq<Route>, pred: spec_fn(Route) -> bool, v4: bool)
    requires
        forall|i: int| 0 <= i < routes.len() ==> is_v4(#[trigger] routes[i]) == v4,
    ensures
        forall|i: int|
            0 <= i < routes.filter(pred).len() ==> is_v4(#[trigger] routes.filter(pred)[i]) == v4,
    decreases routes.len(),
{
    reveal(Seq::filter);
    if routes.len() > 0 {
        let t = routes.drop_last();
        assert forall|i: int| 0 <= i < t.len() implies is_v4(#[trigger] t[i]) == v4 by {
            assert(t[i] == routes[i]);
        }
        lemma_filter_keeps_family(t, pred, v4);
        assert(is_v4(routes[routes.len() - 1]) == v4);
        assert forall|i: int| 0 <= i < routes.filter(pred).len() implies is_v4(
            #[trigger] routes.filter(pred)[i],
        ) == v4 by {
            if i < t.filter(pred).len() {
                assert(routes.filter(pred)[i] == t.filter(pred)[i]);
            }
        }
    }
}

/// Withdrawing a prefix takes back its announcement: no route to it is left, and
/// all others are as they were.
pub proof fn law_withdraw_undoes_announce(bird: BirdView, route: Route)
    requires
        routes_sorted(bird),
    ensures
        withdrawing(announcing(bird, seq![route]), route.prefix) == withdrawing(bird, route.prefix),
        forall|i: int|
            0 <= i < withdrawing(bird, route.prefix).routes_v4.len() ==> (
            #[trigger] withdrawing(bird, route.prefix).routes_v4[i]).prefix != route.prefix,
        forall|i: int|
            0 <= i < withdrawing(bird, route.prefix).routes_v6.len() ==> (
            #[trigger] withdrawing(bird, route.prefix).routes_v6[i]).prefix != route.prefix,
{
    reveal_with_fuel(Seq::filter, 2);
    let prefix = route.prefix;
    let w = withdrawing(bird, prefix);
    assert(seq![route].drop_last() =~= Seq::empty());
    let (x, y) = (seq![route].filter(of_family(true)), seq![route].filter(of_family(false)));
    if is_v4(route) {
        assert(x =~= seq![route]);
        assert(y =~= Seq::empty());
        assert((bird.routes_v4 + x).drop_last() =~= bird.routes_v4);
        assert(bird.routes_v6 + y =~= bird.routes_v6);
    } else {
        assert(x =~= Seq::empty());
        assert(y =~= seq![route]);
        assert((bird.routes_v6 + y).drop_last() =~= bird.routes_v6);
        assert(bird.routes_v4 + x =~= bird.routes_v4);
    }
    assert(withdrawing(announcing(bird, seq![route]), prefix) =~= w);
    assert forall|i: int| 0 <= i < w.routes_v4.len() implies (#[trigger] w.routes_v4[i]).prefix
        != prefix by {
        if prefix is V4 {
            bird.routes_v4.lemma_filter_pred(not_to(prefix), i);
        } else {
            assert(is_v4(bird.routes_v4[i]));
        }
    }
    assert forall|i: int| 0 <= i < w.routes_v6.len() implies (#[trigger] w.routes_v6[i]).prefix
        != prefix by {
        if prefix is V4 {
            assert(!is_v4(bird.routes_v6[i]));
        } else {
            bird.routes_v6.lemma_filter_pred(not_to(prefix), i);
        }
    }
}

/// A line of BIRD's list of protocols.
#[derive(Clone, Debug)]
pub struct ProtocolEntry {
    pub name: String,
    pub proto: String,
    pub state: String,
}

/// A [`ProtocolEntry`] over sequences.
#[verifier::ext_equal]
pub struct ProtocolView {
    pub name: Seq<char>,
    pub proto: Seq<char>,
    pub state: Seq<char>,
}

impl View for ProtocolEntry {
    type V = ProtocolView;

    open spec fn view(&self) -> ProtocolView {
        ProtocolView { name: self.name@, proto: self.proto@, state: self.state@ }
    }
}

/// The views of entries.
pub open spec fn protocol_views(list: Seq<ProtocolEntry>) -> Seq<ProtocolView> {
    list.map_values(|p: ProtocolEntry| p@)
}

/// Why a list of protocols cannot be read.
#[derive(Clone, Copy, Debug, PartialEq, Eq, Structural)]
pub enum ProtocolsError {
    MissingHeader,
    MissingProtoColumn,
    MissingInfoColumn,
}

impl ProtocolsError {
    /// What is said of it.
    pub open spec fn text(self) -> Seq<char> {
        match self {
            ProtocolsError::MissingHeader => "Missing header in protocols output"@,
            ProtocolsError::MissingProtoColumn => "Missing Proto column"@,
            ProtocolsError::MissingInfoColumn => "Missing Info column"@,
        }
    }

    /// The error as text.
    pub fn to_text(&self) -> (r: &'static str)
        ensures
            r@ == self.text(),
    {
        match self {
            ProtocolsError::MissingHeader => "Missing header in protocols output",
            ProtocolsError::MissingProtoColumn => "Missing Proto column",
            ProtocolsError::MissingInfoColumn => "Missing Info column",
        }
    }
}

/// The first line that starts like the header.
pub open spec fn header_at(list: Seq<Seq<char>>) -> Option<int>
    decreases list.len(),
{
    if list.len() == 0 {
        None
    } else if starts(list[0], "Name"@) {
        Some(0)
    } else {
        match header_at(list.drop_first()) {
            Some(i) => Some(i + 1),
            None => None,
        }
    }
}

proof fn lemma_header_at(list: Seq<Seq<char>>, n: int)
    requires
        0 <= n <= list.len(),
        forall|j: int| 0 <= j < n ==> !starts(#[trigger] list[j], "Name"@),
    ensures
        n == list.len() ==> header_at(list) is None,
        n < list.len() && starts(list[n], "Name"@) ==> header_at(list) == Some(n),
    decreases list.len(),
{
    if list.len() > 0 && n > 0 {
        let t = list.drop_first();
        assert(!starts(list[0], "Name"@));
        assert forall|j: int| 0 <= j < n - 1 implies !starts(#[trigger] t[j], "Name"@) by {
            assert(t[j] == list[j + 1]);
        }
        lemma_header_at(t, n - 1);
        if n < list.len() {
            assert(t[n - 1] == list[n]);
        }
    }
}

/// The byte offset of a column: where its title first stands in the header.
pub open spec fn column(header: Seq<char>, title: Seq<char>) -> Option<int> {
    first_at(encode_utf8(header), encode_utf8(title))
}

/// The part of a line before a byte offset.
pub open spec fn before(line: Seq<char>, at: int) -> Seq<char> {
    decode_utf8(encode_utf8(line).subrange(0, at))
}

/// The part of a line from a byte offset on.
pub open spec fn from(line: Seq<char>, at: int) -> Seq<char> {
    decode_utf8(encode_utf8(line).subrange(at, encode_utf8(line).len() as int))
}

/// What a line says, given where the columns start: the name stands before the
/// column of the protocol, the protocol is the first word from there on, and the
/// state is what stands from the info column on.
pub open spec fn protocol_of(line: Seq<char>, proto_col: int, info_col: int) -> ProtocolView {
    ProtocolView {
        name: trim(before(line, proto_col)),
        proto: match first_word(from(line, proto_col)) {
            Some(word) => word,
            None => Seq::empty(),
        },
        state: if encode_utf8(line).len() > info_col {
            trim(from(line, info_col))
        } else {
            Seq::empty()
        },
    }
}

/// What lines say; empty ones say nothing.
pub open spec fn protocols_of(
    list: Seq<Seq<char>>,
    proto_col: int,
    info_col: int,
) -> Seq<ProtocolView>
    decreases list.len(),
{
    if list.len() == 0 {
        Seq::empty()
    } else {
        let head = protocols_of(list.drop_last(), proto_col, info_col);
        if list.last().len() == 0 {
            head
        } else {
            head.push(protocol_of(list.last(), proto_col, info_col))
        }
    }
}

/// What a list of protocols says.
pub open spec fn protocols_in(s: Seq<char>) -> Result<Seq<ProtocolView>, ProtocolsError> {
    let all = lines(s);
    match header_at(all) {
        None => Err(ProtocolsError::MissingHeader),
        Some(h) => match column(all[h], "Proto"@) {
            None => Err(ProtocolsError::MissingProtoColumn),
            Some(proto_col) => match column(all[h], "Info"@) {
                None => Err(ProtocolsError::MissingInfoColumn),
                Some(info_col) => Ok(protocols_of(all.skip(h + 1), proto_col, info_col)),
            },
        },
    }
}

/// The columns start at characters of the line, and the line reaches the first.
pub open spec fn line_fits(line: Seq<char>, proto_col: int, info_col: int) -> bool {
    &&& is_char_boundary(encode_utf8(line), proto_col)
    &&& encode_utf8(line).len() > info_col ==> is_char_boundary(encode_utf8(line), info_col)
}

/// The columns fit every line below the header that is not empty.
pub open spec fn columns_fit(s: Seq<char>) -> bool {
    let all = lines(s);
    match header_at(all) {
        None => true,
        Some(h) => match (column(all[h], "Proto"@), column(all[h], "Info"@)) {
            (Some(proto_col), Some(info_col)) => forall|i: int|
                h < i < all.len() && (#[trigger] all[i]).len() > 0 ==> line_fits(
                    all[i],
                    proto_col,
                    info_col,
                ),
            _ => true,
        },
    }
}

fn find_header(all: &Vec<String>) -> (r: Option<usize>)
    ensures
        match r {
            Some(h) => h < all@.len() && header_at(views(all@)) == Some(h as int),
            None => header_at(views(all@)) is None,
        },
{
    let ghost list = views(all@);
    let mut h: usize = 0;
    while h < all.len()
        invariant
            h <= all@.len(),
            list == views(all@),
            forall|j: int| 0 <= j < h ==> !starts(#[trigger] list[j], "Name"@),
        decreases all@.len() - h,
    {
        assert(list[h as int] == all@[h as int]@);
        if starts_with(all[h].as_str(), "Name") {
            proof {
                lemma_header_at(list, h as int);
            }
            return Some(h);
        }
        h += 1;
    }
    proof {
        lemma_header_at(list, list.len() as int);
    }
    None
}

/// Whether the columns fit every line below the header that is not empty.
pub fn protocols_fit(s: &str) -> (r: bool)
    ensures
        r == columns_fit(s@),
{
    let all = lines_of(s);
    let ghost list = lines(s@);
    let h = match find_header(&all) {
        Some(h) => h,
        None => {
            return true;
        },
    };
    assert(list[h as int] == all@[h as int]@);
    let proto_col: usize = match find(all[h].as_str(), "Proto") {
        Some(col) => col,
        None => {
            return true;
        },
    };
    let info_col: usize = match find(all[h].as_str(), "Info") {
        Some(col) => col,
        None => {
            return true;
        },
    };
    assert(all.len() <= usize::MAX);
    let mut i: usize = h + 1;
    while i < all.len()
        invariant
            h < i <= all@.len(),
            views(all@) == list,
            list == lines(s@),
            header_at(list) == Some(h as int),
            column(list[h as int], "Proto"@) == Some(proto_col as int),
            column(list[h as int], "Info"@) == Some(info_col as int),
            forall|j: int|
                h < j < i && (#[trigger] list[j]).len() > 0 ==> line_fits(
                    list[j],
                    proto_col as int,
                    info_col as int,
                ),
        decreases all@.len() - i,
    {
        let line = all[i].as_str();
        assert(list[i as int] == line@);
        if !line.is_empty() {
            if !line.is_char_boundary(proto_col) {
                assert(!line_fits(list[i as int], proto_col as int, info_col as int));
                return false;
            }
            if line.as_bytes().len() > info_col && !line.is_char_boundary(info_col) {
                assert(!line_fits(list[i as int], proto_col as int, info_col as int));
                return false;
            }
        }
        i += 1;
    }
    true
}

fn parse_protocol(line: &str, proto_col: usize, info_col: usize) -> (r: ProtocolEntry)
    requires
        line_fits(line@, proto_col as int, info_col as int),
    ensures
        r@ == protocol_of(line@, proto_col as int, info_col as int),
{
    broadcast use vstd::utf8::encode_utf8_decode_utf8;

    let (head, tail) = line.split_at(proto_col);
    assert(head@ == before(line@, proto_col as int));
    assert(tail@ == from(line@, proto_col as int));
    let name = trimmed(head);
    let proto = match first_word_of(tail) {
        Some(word) => word,
        None => String::new(),
    };
    let state = if line.as_bytes().len() > info_col {
        let (_, info) = line.split_at(info_col);
        assert(info@ == from(line@, info_col as int));
        trimmed(info)
    } else {
        String::new()
    };
    ProtocolEntry { name, proto, state }
}

/// Reads a list of protocols. The header line anchors the columns.
pub fn parse_protocols(s: &str) -> (r: Result<Vec<ProtocolEntry>, ProtocolsError>)
    requires
        columns_fit(s@),
    ensures
        match r {
            Ok(entries) => protocols_in(s@) == Ok::<Seq<ProtocolView>, ProtocolsError>(
                protocol_views(entries@),
            ),
            Err(e) => protocols_in(s@) == Err::<Seq<ProtocolView>, ProtocolsError>(e),
        },
{
    let all = lines_of(s);
    let ghost list = lines(s@);
    let h = match find_header(&all) {
        Some(h) => h,
        None => {
            return Err(ProtocolsError::MissingHeader);
        },
    };
    assert(list[h as int] == all@[h as int]@);
    let proto_col: usize = match find(all[h].as_str(), "Proto") {
        Some(col) => col,
        None => {
            return Err(ProtocolsError::MissingProtoColumn);
        },
    };
    let info_col: usize = match find(all[h].as_str(), "Info") {
        Some(col) => col,
        None => {
            return Err(ProtocolsError::MissingInfoColumn);
        },
    };
    let ghost rest = list.skip(h + 1);
    let mut entries: Vec<ProtocolEntry> = Vec::new();
    assert(all.len() <= usize::MAX);
    let mut i: usize = h + 1;
    proof {
        assert(rest.take(0) =~= Seq::empty());
        assert(protocol_views(entries@) =~= Seq::empty());
    }
    while i < all.len()
        invariant
            h < i <= all@.len(),
            views(all@) == list,
            list == lines(s@),
            rest == list.skip(h + 1),
            columns_fit(s@),
            header_at(list) == Some(h as int),
            column(list[h as int], "Proto"@) == Some(proto_col as int),
            column(list[h as int], "Info"@) == Some(info_col as int),
            protocol_views(entries@) == protocols_of(
                rest.take(i - h - 1),
                proto_col as int,
                info_col as int,
            ),
        decreases all@.len() - i,
    {
        let line = all[i].as_str();
        let ghost so_far = entries@;
        proof {
            assert(list[i as int] == line@);
            assert(rest.take(i - h).drop_last() =~= rest.take(i - h - 1));
            assert(rest.take(i - h).last() == line@);
        }
        if !line.is_empty() {
            let entry = parse_protocol(line, proto_col, info_col);
            entries.push(entry);
            assert(protocol_views(entries@) =~= protocol_views(so_far).push(entry@));
        }
        i += 1;
    }
    assert(rest.take(rest.len() as int) =~= rest);
    Ok(entries)
}

/// A route that BIRD has learnt, and the session from which it did.
#[derive(Clone, Debug)]
pub struct RouteEntry {
    pub prefix: IpNet,
    pub peer: String,
}

/// A [`RouteEntry`] over sequences.
#[verifier::ext_equal]
pub struct RouteEntryView {
    pub prefix: IpNet,
    pub peer: Seq<char>,
}

impl View for RouteEntry {
    type V = RouteEntryView;

    open spec fn view(&self) -> RouteEntryView {
        RouteEntryView { prefix: self.prefix, peer: self.peer@ }
    }
}

/// Why a line does not describe a route.
#[derive(Clone, Copy, Debug, PartialEq, Eq, Structural)]
pub enum RouteEntryError {
    EmptyLine,
    BadPrefix,
    MissingBracket,
    MalformedPeer,
}

impl RouteEntryError {
    /// What is said of it.
    pub open spec fn text(self) -> Seq<char> {
        match self {
            RouteEntryError::EmptyLine => "Empty route line"@,
            RouteEntryError::BadPrefix => "invalid IP address syntax"@,
            RouteEntryError::MissingBracket => "Missing '[' in route line"@,
            RouteEntryError::MalformedPeer => "Malformed peer name"@,
        }
    }

    /// The error as text.
    pub fn to_text(&self) -> (r: &'static str)
        ensures
            r@ == self.text(),
    {
        match self {
            RouteEntryError::EmptyLine => "Empty route line",
            RouteEntryError::BadPrefix => "invalid IP address syntax",
            RouteEntryError::MissingBracket => "Missing '[' in route line",
            RouteEntryError::MalformedPeer => "Malformed peer name",
        }
    }
}

/// Where a peer name ends: at white space or a closing bracket.
pub open spec fn peer_end(s: Seq<char>) -> Option<int>
    decreases s.len(),
{
    if s.len() == 0 {
        None
    } else if is_white(s[0]) || s[0] == ']' {
        Some(0)
    } else {
        match peer_end(s.drop_first()) {
            Some(i) => Some(i + 1),
            None => None,
        }
    }
}

proof fn lemma_peer_end(s: Seq<char>, n: int)
    requires
        0 <= n <= s.len(),
        forall|j: int| 0 <= j < n ==> !is_white(#[trigger] s[j]) && s[j] != ']',
    ensures
        n == s.len() ==> peer_end(s) is None,
        n < s.len() && (is_white(s[n]) || s[n] == ']') ==> peer_end(s) == Some(n),
    decreases s.len(),
{
    if s.len() > 0 && n > 0 {
        let t = s.drop_first();
        assert(!is_white(s[0]) && s[0] != ']');
        assert forall|j: int| 0 <= j < n - 1 implies !is_white(#[trigger] t[j]) && t[j] != ']' by {
            assert(t[j] == s[j + 1]);
        }
        lemma_peer_end(t, n - 1);
        if n < s.len() {
            assert(t[n - 1] == s[n]);
        }
    }
}

/// The peer name of a route line: what stands behind the first opening bracket,
/// up to white space or a closing bracket.
pub open spec fn peer_of(s: Seq<char>) -> Result<Seq<char>, RouteEntryError> {
    match first_index(s, '[') {
        None => Err(RouteEntryError::MissingBracket),
        Some(bracket) => match peer_end(s.skip(bracket + 1)) {
            None => Err(RouteEntryError::MalformedPeer),
            Some(end) => Ok(s.skip(bracket + 1).take(end)),
        },
    }
}

/// What a route line says, given the prefix that its first word stands for.
pub open spec fn route_with(prefix: Option<IpNet>, s: Seq<char>) -> Result<
    RouteEntryView,
    RouteEntryError,
> {
    match prefix {
        None => Err(RouteEntryError::BadPrefix),
        Some(prefix) => match peer_of(s) {
            Ok(peer) => Ok(RouteEntryView { prefix, peer }),
            Err(e) => Err(e),
        },
    }
}

/// What a route line says.
pub open spec fn route_in(s: Seq<char>) -> Result<RouteEntryView, RouteEntryError> {
    match first_word(s) {
        None => Err(RouteEntryError::EmptyLine),
        Some(word) => route_with(net_of_text(word), s),
    }
}

impl RouteEntry {
    /// Reads a route line, given the prefix that its first word stands for.
    pub fn with_prefix(prefix: Option<IpNet>, s: &str) -> (r: Result<RouteEntry, RouteEntryError>)
        ensures
            match r {
                Ok(entry) => route_with(prefix, s@) == Ok::<RouteEntryView, RouteEntryError>(
                    entry@,
                ),
                Err(e) => route_with(prefix, s@) == Err::<RouteEntryView, RouteEntryError>(e),
            },
    {
        let prefix = match prefix {
            Some(prefix) => prefix,
            None => {
                return Err(RouteEntryError::BadPrefix);
            },
        };
        let chars = chars_of(s);
        let mut bracket: usize = 0;
        proof {
            lemma_first_index(s@, '[');
        }
        while bracket < chars.len() && chars[bracket] != '['
            invariant
                bracket <= chars@.len(),
                forall|j: int| 0 <= j < bracket ==> chars@[j] != '[',
            decreases chars@.len() - bracket,
        {
            bracket += 1;
        }
        if bracket == chars.len() {
            return Err(RouteEntryError::MissingBracket);
        }
        let start: usize = bracket + 1;
        let ghost rest = s@.skip(start as int);
        let mut end: usize = start;
        while end < chars.len() && !is_whitespace(chars[end]) && chars[end] != ']'
            invariant
                start <= end <= chars@.len(),
                chars@ == s@,
                rest == s@.skip(start as int),
                forall|j: int|
                    0 <= j < end - start ==> !is_white(#[trigger] rest[j]) && rest[j] != ']',
            decreases chars@.len() - end,
        {
            assert(rest[end - start] == chars@[end as int]);
            end += 1;
        }
        proof {
            lemma_peer_end(rest, end - start);
        }
        if end == chars.len() {
            return Err(RouteEntryError::MalformedPeer);
        }
        assert(rest[end - start] == chars@[end as int]);
        let peer = string_of(&chars, start, end);
        assert(peer@ =~= rest.take(end - start));
        Ok(RouteEntry { prefix, peer })
    }

    /// Reads a route line.
    pub fn from_str(s: &str) -> (r: Result<RouteEntry, RouteEntryError>)
        ensures
            match r {
                Ok(entry) => route_in(s@) == Ok::<RouteEntryView, RouteEntryError>(entry@),
                Err(e) => route_in(s@) == Err::<RouteEntryView, RouteEntryError>(e),
            },
    {
        match first_word_of(s) {
            Some(word) => RouteEntry::with_prefix(parse_net(word.as_str()), s),
            None => Err(RouteEntryError::EmptyLine),
        }
    }
}

/// The line may describe a route: it is not empty, not indented, and neither
/// BIRD's greeting nor the title of a table.
pub open spec fn may_be_route(line: Seq<char>) -> bool {
    line.len() > 0 && !is_white(line[0]) && !starts(line, "BIRD"@) && !starts(line, "Table"@)
}

/// The routes that lines describe; lines that describe none are passed over.
pub open spec fn routes_in_lines(list: Seq<Seq<char>>) -> Seq<RouteEntryView>
    decreases list.len(),
{
    if list.len() == 0 {
        Seq::empty()
    } else {
        let head = routes_in_lines(list.drop_last());
        if may_be_route(list.last()) && route_in(list.last()) is Ok {
            head.push(route_in(list.last())->Ok_0)
        } else {
            head
        }
    }
}

/// Reads a list of routes.
pub fn parse_routes(s: &str) -> (r: Vec<RouteEntry>)
    ensures
        r@.map_values(|e: RouteEntry| e@) == routes_in_lines(lines(s@)),
{
    let all = lines_of(s);
    let ghost list = lines(s@);
    let mut entries: Vec<RouteEntry> = Vec::new();
    let mut i: usize = 0;
    proof {
        assert(list.take(0) =~= Seq::empty());
        assert(entries@.map_values(|e: RouteEntry| e@) =~= Seq::empty());
    }
    while i < all.len()
        invariant
            i <= all@.len(),
            views(all@) == list,
            entries@.map_values(|e: RouteEntry| e@) == routes_in_lines(list.take(i as int)),
        decreases all@.len() - i,
    {
        let line = all[i].as_str();
        let ghost so_far = entries@;
        proof {
            assert(list[i as int] == line@);
            assert(list.take(i + 1).drop_last() =~= list.take(i as int));
            assert(list.take(i + 1).last() == line@);
        }
        let chars = chars_of(line);
        let candidate: bool = chars.len() > 0 && !is_whitespace(chars[0]) && !starts_with(
            line,
            "BIRD",
        ) && !starts_with(line, "Table");
        if candidate {
            if let Ok(entry) = RouteEntry::from_str(line) {
                entries.push(entry);
                assert(entries@.map_values(|e: RouteEntry| e@) =~= so_far.map_values(
                    |e: RouteEntry| e@,
                ).push(entry@));
            }
        }
        i += 1;
    }
    assert(list.take(list.len() as int) =~= list);
    entries
}

/// The namespaces in which an instance runs: those of its router, with a place of
/// its own for its configuration and its control socket.
pub fn namespace(net_ns: NetNs) -> (r: NsBuilder)
    ensures
        r@ == (NsBuilderView {
            net_ns: net_ns@,
            mount_name: Some("bird"@),
            mount_dirs: seq!["/tmp"@, "/run/bird"@, "/etc/bird"@],
        }),
{
    let dirs = vec!["/run/bird", "/etc/bird"];
    let r = Ns::builder(net_ns).mount("bird", dirs.as_slice());
    assert(r@.mount_dirs =~= seq!["/tmp"@, "/run/bird"@, "/etc/bird"@]);
    r
}

/// What is seen of a daemon is what it is configured with.
pub proof fn law_bird_shows_its_fields(bird: Bird)
    ensures
        bird@.id == bird.id,
        bird@.asn == bird.asn,
        bird@.routes_v4 == bird.routes_v4@,
        bird@.routes_v6 == bird.routes_v6@,
        bird@.peers.len() == bird.peers@.len(),
        forall|i: int| 0 <= i < bird.peers@.len() ==> #[trigger] bird@.peers[i] == bird.peers@[i]@,
{
}

/// Every route that is announced goes behind the others of its family, in order, and
/// nothing else changes.
pub proof fn law_every_route_is_announced(bird: BirdView, routes: Seq<Route>, route: Route)
    ensures
        announcing(bird, Seq::empty()) == bird,
        route.prefix is V4 ==> announcing(bird, routes.push(route)) == (BirdView {
            routes_v4: announcing(bird, routes).routes_v4.push(route),
            ..announcing(bird, routes)
        }),
        route.prefix is V6 ==> announcing(bird, routes.push(route)) == (BirdView {
            routes_v6: announcing(bird, routes).routes_v6.push(route),
            ..announcing(bird, routes)
        }),
        announcing(bird, routes).id == bird.id,
        announcing(bird, routes).asn == bird.asn,
        announcing(bird, routes).peers == bird.peers,
{
    reveal(Seq::filter);
    let none = Seq::<Route>::empty();
    assert(bird.routes_v4 + none.filter(of_family(true)) =~= bird.routes_v4);
    assert(bird.routes_v6 + none.filter(of_family(false)) =~= bird.routes_v6);
    let all = routes.push(route);
    assert(all.drop_last() =~= routes);
    assert(all.last() == route);
    let before = announcing(bird, routes);
    let now = announcing(bird, all);
    if route.prefix is V4 {
        assert(of_family(true)(route) && !of_family(false)(route));
        assert(now.routes_v4 =~= before.routes_v4.push(route));
        assert(now.routes_v6 =~= before.routes_v6);
    } else {
        assert(!of_family(true)(route) && of_family(false)(route));
        assert(now.routes_v6 =~= before.routes_v6.push(route));
        assert(now.routes_v4 =~= before.routes_v4);
    }
}

/// Withdrawing a prefix takes all its routes away from its family and leaves every
/// other route in its place; nothing else changes.
pub proof fn law_withdrawing_keeps_other_routes(bird: BirdView, prefix: IpNet)
    ensures
        prefix is V4 ==> withdrawing(bird, prefix) == (BirdView {
            routes_v4: bird.routes_v4.filter(|r: Route| r.prefix != prefix),
            ..bird
        }),
        prefix is V6 ==> withdrawing(bird, prefix) == (BirdView {
            routes_v6: bird.routes_v6.filter(|r: Route| r.prefix != prefix),
            ..bird
        }),
{
    assert(not_to(prefix) =~= (|r: Route| r.prefix != prefix));
}

/// A session is established where the daemon lists it by its name, as one of BGP,
/// in that state.
pub proof fn law_established_sessions(protocols: Seq<ProtocolView>, peer: PeerView, i: int)
    requires
        0 <= i < protocols.len(),
        protocols[i].name == peer.name,
        protocols[i].proto == "BGP"@,
        protocols[i].state == "Established"@,
    ensures
        established(protocols, peer),
{
}

/// No session is established of which the daemon says otherwise.
pub proof fn law_sessions_not_established(protocols: Seq<ProtocolView>, peer: PeerView)
    requires
        forall|i: int|
            0 <= i < protocols.len() ==> (#[trigger] protocols[i]).name != peer.name
                || protocols[i].proto != "BGP"@ || protocols[i].state != "Established"@,
    ensures
        !established(protocols, peer),
{
}

/// The header of a listing is its first line that begins with `Name`.
pub proof fn law_first_header_counts(list: Seq<Seq<char>>, i: int)
    requires
        0 <= i <= list.len(),
        forall|k: int| 0 <= k < i ==> !starts(#[trigger] list[k], "Name"@),
        i < list.len() ==> starts(list[i], "Name"@),
    ensures
        i < list.len() ==> header_at(list) == Some(i),
        i == list.len() ==> header_at(list) is None,
    decreases i,
{
    if i > 0 {
        let rest = list.drop_first();
        assert(!starts(list[0], "Name"@));
        assert forall|k: int| 0 <= k < i - 1 implies !starts(#[trigger] rest[k], "Name"@) by {
            assert(rest[k] == list[k + 1]);
        }
        law_first_header_counts(rest, i - 1);
    }
}

/// What a line says of a protocol: its name is what stands ahead of the one column,
/// its kind the first word from there, and its state what stands from the other
/// column on, where the line reaches that far; white space around them is dropped.
pub proof fn law_protocol_line(line: Seq<char>, proto_col: int, info_col: int)
    ensures
        ({
            let bytes = encode_utf8(line);
            let p = protocol_of(line, proto_col, info_col);
            let rest = decode_utf8(bytes.subrange(proto_col, bytes.len() as int));
            &&& p.name == trim(decode_utf8(bytes.subrange(0, proto_col)))
            &&& first_word(rest) is Some ==> p.proto == first_word(rest)->0
            &&& first_word(rest) is None ==> p.proto.len() == 0
            &&& bytes.len() > info_col ==> p.state == trim(
                decode_utf8(bytes.subrange(info_col, bytes.len() as int)),
            )
            &&& bytes.len() <= info_col ==> p.state.len() == 0
        }),
{
}

/// Every line that is not empty makes an entry, in order.
pub proof fn law_every_line_is_a_protocol(
    s: Seq<Seq<char>>,
    t: Seq<Seq<char>>,
    line: Seq<char>,
    proto_col: int,
    info_col: int,
)
    ensures
        protocols_of(Seq::empty(), proto_col, info_col).len() == 0,
        line.len() > 0 ==> protocols_of(seq![line], proto_col, info_col) == seq![
            protocol_of(line, proto_col, info_col),
        ],
        line.len() == 0 ==> protocols_of(seq![line], proto_col, info_col).len() == 0,
        protocols_of(s + t, proto_col, info_col) == protocols_of(s, proto_col, info_col)
            + protocols_of(t, proto_col, info_col),
    decreases t.len(),
{
    assert(seq![line].drop_last() =~= Seq::empty());
    assert(seq![line].last() == line);
    assert(protocols_of(Seq::empty(), proto_col, info_col) =~= Seq::empty());
    assert(line.len() > 0 ==> protocols_of(seq![line], proto_col, info_col) =~= seq![
        protocol_of(line, proto_col, info_col),
    ]);
    if t.len() == 0 {
        assert(s + t =~= s);
        assert(protocols_of(s, proto_col, info_col) + protocols_of(t, proto_col, info_col)
            =~= protocols_of(s, proto_col, info_col));
    } else {
        law_every_line_is_a_protocol(s, t.drop_last(), line, proto_col, info_col);
        assert((s + t).drop_last() =~= s + t.drop_last());
        assert(protocols_of(s + t, proto_col, info_col) =~= protocols_of(s, proto_col, info_col)
            + protocols_of(t, proto_col, info_col));
    }
}

/// What a listing of protocols says: the entries of the lines behind its header, by
/// the columns that the header gives, or what is missing of it.
pub proof fn law_listing_of_protocols(s: Seq<char>)
    ensures
        header_at(lines(s)) is None ==> protocols_in(s) == Err::<Seq<ProtocolView>, ProtocolsError>(
            ProtocolsError::MissingHeader,
        ),
        header_at(lines(s)) is Some ==> {
            let h = header_at(lines(s))->0;
            let header = encode_utf8(lines(s)[h]);
            let proto = first_at(header, encode_utf8("Proto"@));
            let info = first_at(header, encode_utf8("Info"@));
            &&& proto is None ==> protocols_in(s) == Err::<Seq<ProtocolView>, ProtocolsError>(
                ProtocolsError::MissingProtoColumn,
            )
            &&& proto is Some && info is None ==> protocols_in(s) == Err::<
                Seq<ProtocolView>,
                ProtocolsError,
            >(ProtocolsError::MissingInfoColumn)
            &&& proto is Some && info is Some ==> protocols_in(s) == Ok::<
                Seq<ProtocolView>,
                ProtocolsError,
            >(protocols_of(lines(s).skip(h + 1), proto->0, info->0))
        },
{
}

/// The name of a peer ends ahead of the first white space or closing bracket.
pub proof fn law_end_of_peer_name(s: Seq<char>, i: int)
    requires
        0 <= i <= s.len(),
        forall|k: int| 0 <= k < i ==> !is_white(#[trigger] s[k]) && s[k] != ']',
        i < s.len() ==> is_white(s[i]) || s[i] == ']',
    ensures
        i < s.len() ==> peer_end(s) == Some(i),
        i == s.len() ==> peer_end(s) is None,
    decreases i,
{
    if i > 0 {
        let rest = s.drop_first();
        assert(!is_white(s[0]) && s[0] != ']');
        assert forall|k: int| 0 <= k < i - 1 implies !is_white(#[trigger] rest[k]) && rest[k]
            != ']' by {
            assert(rest[k] == s[k + 1]);
        }
        law_end_of_peer_name(rest, i - 1);
    }
}

/// The peer in a line: what stands between its first opening bracket and the next
/// white space or closing bracket.
pub proof fn law_peer_in_a_line(s: Seq<char>, b: int, e: int)
    requires
        0 <= b < e < s.len(),
        s[b] == '[',
        forall|k: int| 0 <= k < b ==> #[trigger] s[k] != '[',
        forall|k: int| b < k < e ==> !is_white(#[trigger] s[k]) && s[k] != ']',
        is_white(s[e]) || s[e] == ']',
    ensures
        peer_of(s) == Ok::<Seq<char>, RouteEntryError>(s.subrange(b + 1, e)),
{
    lemma_first_index(s, '[');
    assert(first_index(s, '[') == Some(b));
    let rest = s.skip(b + 1);
    let n = e - b - 1;
    assert forall|k: int| 0 <= k < n implies !is_white(#[trigger] rest[k]) && rest[k] != ']' by {
        assert(rest[k] == s[b + 1 + k]);
    }
    assert(rest[n] == s[e]);
    law_end_of_peer_name(rest, n);
    assert(rest.take(n) =~= s.subrange(b + 1, e));
}

/// A line without an opening bracket names no peer, nor does one in which nothing
/// ends the name.
pub proof fn law_no_peer_in_a_line(s: Seq<char>)
    ensures
        (forall|k: int| 0 <= k < s.len() ==> #[trigger] s[k] != '[') ==> peer_of(s) == Err::<
            Seq<char>,
            RouteEntryError,
        >(RouteEntryError::MissingBracket),
        forall|b: int|
            0 <= b < s.len() && #[trigger] s[b] == '[' && (forall|k: int|
                0 <= k < b ==> #[trigger] s[k] != '[') && (forall|k: int|
                b < k < s.len() ==> !is_white(#[trigger] s[k]) && s[k] != ']') ==> peer_of(s)
                == Err::<Seq<char>, RouteEntryError>(RouteEntryError::MalformedPeer),
{
    lemma_first_index(s, '[');
    assert forall|b: int|
        0 <= b < s.len() && #[trigger] s[b] == '[' && (forall|k: int|
            0 <= k < b ==> #[trigger] s[k] != '[') && (forall|k: int|
            b < k < s.len() ==> !is_white(#[trigger] s[k]) && s[k] != ']') implies peer_of(s)
        == Err::<Seq<char>, RouteEntryError>(RouteEntryError::MalformedPeer) by {
        assert(first_index(s, '[') == Some(b));
        let rest = s.skip(b + 1);
        assert forall|k: int| 0 <= k < rest.len() implies !is_white(#[trigger] rest[k]) && rest[k]
            != ']' by {
            assert(rest[k] == s[b + 1 + k]);
        }
        law_end_of_peer_name(rest, rest.len() as int);
    }
}

/// What a line says of a route: the prefix that its first word stands for and the
/// peer; what is wrong with the prefix is told first.
pub proof fn law_route_line(s: Seq<char>)
    ensures
        first_word(s) is None ==> route_in(s) == Err::<RouteEntryView, RouteEntryError>(
            RouteEntryError::EmptyLine,
        ),
        first_word(s) is Some && net_of_text(first_word(s)->0) is None ==> route_in(s) == Err::<
            RouteEntryView,
            RouteEntryError,
        >(RouteEntryError::BadPrefix),
        first_word(s) is Some && net_of_text(first_word(s)->0) is Some ==> match peer_of(s) {
            Ok(peer) => route_in(s) is Ok && route_in(s)->Ok_0.prefix == net_of_text(
                first_word(s)->0,
            )->0 && route_in(s)->Ok_0.peer == peer,
            Err(e) => route_in(s) == Err::<RouteEntryView, RouteEntryError>(e),
        },
{
}

/// Every line that may be a route and reads as one makes an entry, in order; lines
/// that are empty or indented, and those of the banner and the table's name, may not.
pub proof fn law_every_route_line_is_read(s: Seq<Seq<char>>, t: Seq<Seq<char>>, line: Seq<char>)
    ensures
        routes_in_lines(Seq::empty()).len() == 0,
        line.len() > 0 && !is_white(line[0]) && !starts(line, "BIRD"@) && !starts(line, "Table"@)
            && route_in(line) is Ok ==> routes_in_lines(seq![line]) == seq![route_in(line)->Ok_0],
        line.len() == 0 || is_white(line[0]) || starts(line, "BIRD"@) || starts(line, "Table"@)
            || route_in(line) is Err ==> routes_in_lines(seq![line]).len() == 0,
        routes_in_lines(s + t) == routes_in_lines(s) + routes_in_lines(t),
    decreases t.len(),
{
    assert(seq![line].drop_last() =~= Seq::empty());
    assert(seq![line].last() == line);
    assert(routes_in_lines(Seq::empty()) =~= Seq::empty());
    assert(may_be_route(line) && route_in(line) is Ok ==> routes_in_lines(seq![line]) =~= seq![
        route_in(line)->Ok_0,
    ]);
    if t.len() == 0 {
        assert(s + t =~= s);
        assert(routes_in_lines(s) + routes_in_lines(t) =~= routes_in_lines(s));
    } else {
        law_every_route_line_is_read(s, t.drop_last(), line);
        assert((s + t).drop_last() =~= s + t.drop_last());
        assert(routes_in_lines(s + t) =~= routes_in_lines(s) + routes_in_lines(t));
    }
}

/// What is seen of entries is what they hold.
pub proof fn law_entries_show_their_fields(list: Seq<ProtocolEntry>, route: RouteEntry)
    ensures
        protocol_views(list).len() == list.len(),
        forall|i: int|
            0 <= i < list.len() ==> (#[trigger] protocol_views(list)[i]).name == list[i].name@
                && protocol_views(list)[i].proto == list[i].proto@ && protocol_views(list)[i].state
                == list[i].state@,
        route@.prefix == route.prefix,
        route@.peer == route.peer@,
{
}

/// What is made of a prefix that was read and the rest of the line.
pub proof fn law_prefix_and_peer(prefix: IpNet, s: Seq<char>)
    ensures
        route_with(None, s) == Err::<RouteEntryView, RouteEntryError>(RouteEntryError::BadPrefix),
        peer_of(s) is Ok ==> route_with(Some(prefix), s) is Ok && route_with(
            Some(prefix),
            s,
        )->Ok_0.prefix == prefix && route_with(Some(prefix), s)->Ok_0.peer == peer_of(s)->Ok_0,
        peer_of(s) is Err ==> route_with(Some(prefix), s) is Err && route_with(
            Some(prefix),
            s,
        )->Err_0 == peer_of(s)->Err_0,
{
}

/// A listing fits its header unless, in a line behind the header that is not empty,
/// one of the two columns falls inside a character or the first one outside the line.
pub proof fn law_listings_that_fit(s: Seq<char>, h: int, proto_col: int, info_col: int)
    requires
        header_at(lines(s)) == Some(h),
        first_at(encode_utf8(lines(s)[h]), encode_utf8("Proto"@)) == Some(proto_col),
        first_at(encode_utf8(lines(s)[h]), encode_utf8("Info"@)) == Some(info_col),
    ensures
        columns_fit(s) <==> forall|i: int|
            h < i < lines(s).len() && (#[trigger] lines(s)[i]).len() > 0 ==> is_char_boundary(
                encode_utf8(lines(s)[i]),
                proto_col,
            ) && (encode_utf8(lines(s)[i]).len() > info_col ==> is_char_boundary(
                encode_utf8(lines(s)[i]),
                info_col,
            )),
{
}

/// A listing without a header, or without one of the columns, has nothing to fit.
pub proof fn law_nothing_to_fit(s: Seq<char>)
    ensures
        protocols_in(s) is Err ==> columns_fit(s),
{
}

/// Without peers all sessions are established; one more peer has to have one too.
pub proof fn law_all_sessions_established(
    protocols: Seq<ProtocolView>,
    peers: Seq<PeerView>,
    peer: PeerView,
)
    ensures
        all_established(protocols, Seq::empty()),
        all_established(protocols, peers.push(peer)) <==> all_established(protocols, peers)
            && established(protocols, peer),
{
    let more = peers.push(peer);
    if all_established(protocols, more) {
        assert forall|i: int| 0 <= i < peers.len() implies established(
            protocols,
            #[trigger] peers[i],
        ) by {
            assert(more[i] == peers[i]);
        }
        assert(more[peers.len() as int] == peer);
    }
}

} // verus!
