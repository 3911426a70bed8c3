//! What is read from, and asked of, the kernel about links, addresses and routes.

use vstd::prelude::*;

use crate::net::{law_link_local_range, IpAddr, Ipv4Addr, Ipv6Addr};
use crate::text::views;

verus! {

/// What the kernel tells about a link, as far as it is read; `S` holds its
/// statistics.
#[derive(Debug)]
pub enum LinkAttribute<S> {
    IfName(String),
    /// The index of the link that it is a port of.
    Controller(u32),
    Stats(S),
    Other,
}

/// A link.
#[derive(Debug)]
pub struct LinkMessage<S> {
    pub index: u32,
    pub attributes: Vec<LinkAttribute<S>>,
}

/// What the kernel tells about an address, as far as it is read.
#[derive(Clone, Copy, Debug, PartialEq, Eq, Structural)]
pub enum AddressAttribute {
    Address(IpAddr),
    Other,
}

/// An address of a link.
#[derive(Debug)]
pub struct AddressMessage {
    pub attributes: Vec<AddressAttribute>,
}

/// The kernel tells nothing of a link.
#[derive(Clone, Copy, Debug, PartialEq, Eq, Structural)]
pub enum LinkError {
    /// There is no such link.
    NotFound,
    /// It has no statistics.
    NoStats,
    /// It has no link-local address.
    NoLinkLocal,
}

/// The link is a port of the bridge with the given index.
pub open spec fn is_port<S>(link: LinkMessage<S>, bridge: u32) -> bool {
    exists|i: int|
        0 <= i < link.attributes@.len() && #[trigger] link.attributes@[i]
            == LinkAttribute::<S>::Controller(bridge)
}

/// The first name among attributes.
pub open spec fn first_name<S>(attrs: Seq<LinkAttribute<S>>) -> Option<Seq<char>>
    decreases attrs.len(),
{
    if attrs.len() == 0 {
        None
    } else if attrs[0] is IfName {
        Some(attrs[0]->IfName_0@)
    } else {
        first_name(attrs.drop_first())
    }
}

/// The first statistics among attributes.
pub open spec fn first_stats<S>(attrs: Seq<LinkAttribute<S>>) -> Option<S>
    decreases attrs.len(),
{
    if attrs.len() == 0 {
        None
    } else if attrs[0] is Stats {
        Some(attrs[0]->Stats_0)
    } else {
        first_stats(attrs.drop_first())
    }
}

/// The names of the ports of a bridge, in the order of the links; one without a
/// name is passed over.
pub open spec fn ports_of<S>(links: Seq<LinkMessage<S>>, bridge: u32) -> Seq<Seq<char>>
    decreases links.len(),
{
    if links.len() == 0 {
        Seq::empty()
    } else {
        let head = ports_of(links.drop_last(), bridge);
        match first_name(links.last().attributes@) {
            Some(name) => if is_port(links.last(), bridge) {
                head.push(name)
            } else {
                head
            },
            None => head,
        }
    }
}

/// The first link-local address among attributes.
pub open spec fn first_link_local(attrs: Seq<AddressAttribute>) -> Option<Ipv6Addr>
    decreases attrs.len(),
{
    if attrs.len() == 0 {
        None
    } else {
        match attrs[0] {
            AddressAttribute::Address(IpAddr::V6(v6)) => if v6.link_local() {
                Some(v6)
            } else {
                first_link_local(attrs.drop_first())
            },
            _ => first_link_local(attrs.drop_first()),
        }
    }
}

/// The first link-local address among those of a link.
pub open spec fn link_local_of(msgs: Seq<AddressMessage>) -> Option<Ipv6Addr>
    decreases msgs.len(),
{
    if msgs.len() == 0 {
        None
    } else {
        match first_link_local(msgs[0].attributes@) {
            Some(v6) => Some(v6),
            None => link_local_of(msgs.drop_first()),
        }
    }
}

fn has_controller<S>(link: &LinkMessage<S>, bridge: u32) -> (r: bool)
    ensures
        r == is_port(*link, bridge),
{
    let mut i: usize = 0;
    while i < link.attributes.len()
        invariant
            i <= link.attributes@.len(),
            forall|j: int|
                0 <= j < i ==> #[trigger] link.attributes@[j] != LinkAttribute::<S>::Controller(
                    bridge,
                ),
        decreases link.attributes@.len() - i,
    {
        if let LinkAttribute::Controller(index) = &link.attributes[i] {
            if *index == bridge {
                assert(link.attributes@[i as int] == LinkAttribute::<S>::Controller(bridge));
                return true;
            }
        }
        i += 1;
    }
    false
}

fn link_name<S>(link: &LinkMessage<S>) -> (r: Option<String>)
    ensures
        match r {
            Some(name) => first_name(link.attributes@) == Some(name@),
            None => first_name(link.attributes@) is None,
        },
{
    let mut i: usize = 0;
    assert(link.attributes@.skip(0) =~= link.attributes@);
    while i < link.attributes.len()
        invariant
            i <= link.attributes@.len(),
            first_name(link.attributes@) == first_name(link.attributes@.skip(i as int)),
        decreases link.attributes@.len() - i,
    {
        assert(link.attributes@.skip(i as int).drop_first() =~= link.attributes@.skip(i + 1));
        if let LinkAttribute::IfName(name) = &link.attributes[i] {
            return Some(name.as_str().to_owned());
        }
        i += 1;
    }
    None
}

/// The names of the ports of the bridge with the given index.
pub fn bridge_get_ports<S>(links: &Vec<LinkMessage<S>>, bridge_idx: u32) -> (r: Vec<String>)
    ensures
        views(r@) == ports_of(links@, bridge_idx),
{
    let mut ports: Vec<String> = Vec::new();
    let mut i: usize = 0;
    proof {
        assert(links@.take(0) =~= Seq::empty());
        assert(views(ports@) =~= Seq::empty());
    }
    while i < links.len()
        invariant
            i <= links@.len(),
            views(ports@) == ports_of(links@.take(i as int), bridge_idx),
        decreases links@.len() - i,
    {
        let ghost so_far = ports@;
        proof {
            assert(links@.take(i + 1).drop_last() =~= links@.take(i as int));
            assert(links@.take(i + 1).last() == links@[i as int]);
        }
        if has_controller(&links[i], bridge_idx) {
            if let Some(name) = link_name(&links[i]) {
                ports.push(name);
                assert(views(ports@) =~= views(so_far).push(name@));
            }
        }
        i += 1;
    }
    assert(links@.take(links@.len() as int) =~= links@);
    ports
}

/// The index of a link, given what the kernel tells of links with its name.
pub fn link_get_index<S>(links: &Vec<LinkMessage<S>>) -> (r: Result<u32, LinkError>)
    ensures
        r == (if links@.len() > 0 {
            Ok(links@[0].index)
        } else {
            Err(LinkError::NotFound)
        }),
{
    if links.len() == 0 {
        return Err(LinkError::NotFound);
    }
    Ok(links[0].index)
}

/// The link-local address of a link, given all its addresses.
pub fn link_get_link_local(msgs: &Vec<AddressMessage>) -> (r: Result<Ipv6Addr, LinkError>)
    ensures
        match r {
            Ok(v6) => link_local_of(msgs@) == Some(v6) && v6.link_local(),
            Err(e) => link_local_of(msgs@) is None && e == LinkError::NoLinkLocal,
        },
{
    let mut i: usize = 0;
    assert(msgs@.skip(0) =~= msgs@);
    while i < msgs.len()
        invariant
            i <= msgs@.len(),
            link_local_of(msgs@) == link_local_of(msgs@.skip(i as int)),
        decreases msgs@.len() - i,
    {
        assert(msgs@.skip(i as int).drop_first() =~= msgs@.skip(i + 1));
        let attrs = &msgs[i].attributes;
        let mut k: usize = 0;
        assert(attrs@.skip(0) =~= attrs@);
        while k < attrs.len()
            invariant
                i < msgs@.len(),
                attrs@ == msgs@[i as int].attributes@,
                k <= attrs@.len(),
                link_local_of(msgs@) == link_local_of(msgs@.skip(i as int)),
                first_link_local(attrs@) == first_link_local(attrs@.skip(k as int)),
            decreases attrs@.len() - k,
        {
            assert(attrs@.skip(k as int).drop_first() =~= attrs@.skip(k + 1));
            if let AddressAttribute::Address(IpAddr::V6(v6)) = &attrs[k] {
                if v6.is_link_local() {
                    return Ok(*v6);
                }
            }
            k += 1;
        }
        i += 1;
    }
    Err(LinkError::NoLinkLocal)
}

/// The statistics of a link, given what the kernel tells of links with its name.
pub fn link_get_stats<S>(links: &Vec<LinkMessage<S>>) -> (r: Result<&S, LinkError>)
    ensures
        match r {
            Ok(stats) => links@.len() > 0 && first_stats(links@[0].attributes@) == Some(*stats),
            Err(LinkError::NotFound) => links@.len() == 0,
            Err(e) => e == LinkError::NoStats && links@.len() > 0 && first_stats(
                links@[0].attributes@,
            ) is None,
        },
{
    if links.len() == 0 {
        return Err(LinkError::NotFound);
    }
    let attrs = &links[0].attributes;
    let mut i: usize = 0;
    assert(attrs@.skip(0) =~= attrs@);
    while i < attrs.len()
        invariant
            i <= attrs@.len(),
            links@.len() > 0,
            attrs@ == links@[0].attributes@,
            first_stats(attrs@) == first_stats(attrs@.skip(i as int)),
        decreases attrs@.len() - i,
    {
        assert(attrs@.skip(i as int).drop_first() =~= attrs@.skip(i + 1));
        if let LinkAttribute::Stats(stats) = &attrs[i] {
            return Ok(stats);
        }
        i += 1;
    }
    Err(LinkError::NoStats)
}

/// A default route that the kernel is asked for: over the gateway, out of the
/// interface, with the preferred source address.
#[derive(Clone, Copy, Debug, PartialEq, Eq, Structural)]
pub enum DefaultRoute {
    V6 { gateway: Ipv6Addr, output_interface: u32, pref_source: Ipv6Addr },
    /// IPv4 over an IPv6 gateway.
    V4 { via: Ipv6Addr, output_interface: u32, pref_source: Ipv4Addr },
}

/// The default routes over an IPv6 gateway: one for each family that has a
/// source address, IPv6 first.
pub open spec fn default_routes(
    gateway: Ipv6Addr,
    device: u32,
    src_v4: Option<Ipv4Addr>,
    src_v6: Option<Ipv6Addr>,
) -> Seq<DefaultRoute> {
    (match src_v6 {
        Some(src) => seq![
            DefaultRoute::V6 { gateway, output_interface: device, pref_source: src },
        ],
        None => Seq::empty(),
    }) + (match src_v4 {
        Some(src) => seq![
            DefaultRoute::V4 { via: gateway, output_interface: device, pref_source: src },
        ],
        None => Seq::empty(),
    })
}

/// The default routes over an IPv6 gateway, in the order in which they are added.
pub fn route_add_default_via_v6(
    gateway: Ipv6Addr,
    dev_idx: u32,
    src_v4: Option<Ipv4Addr>,
    src_v6: Option<Ipv6Addr>,
) -> (r: Vec<DefaultRoute>)
    ensures
        r@ == default_routes(gateway, dev_idx, src_v4, src_v6),
{
    let mut out: Vec<DefaultRoute> = Vec::new();
    if let Some(src) = src_v6 {
        out.push(DefaultRoute::V6 { gateway, output_interface: dev_idx, pref_source: src });
    }
    if let Some(src) = src_v4 {
        out.push(DefaultRoute::V4 { via: gateway, output_interface: dev_idx, pref_source: src });
    }
    assert(out@ =~= default_routes(gateway, dev_idx, src_v4, src_v6));
    out
}

/// A link is a port of a bridge where any of its attributes says so.
pub proof fn law_ports_by_controller<S>(link: LinkMessage<S>, bridge: u32)
    ensures
        is_port(link, bridge) <==> exists|i: int|
            0 <= i < link.attributes@.len() && (#[trigger] link.attributes@[i]) is Controller
                && link.attributes@[i]->Controller_0 == bridge,
{
    if is_port(link, bridge) {
        let i = choose|i: int|
            0 <= i < link.attributes@.len() && #[trigger] link.attributes@[i]
                == LinkAttribute::<S>::Controller(bridge);
        assert(link.attributes@[i] is Controller);
    }
    if exists|i: int|
        0 <= i < link.attributes@.len() && (#[trigger] link.attributes@[i]) is Controller
            && link.attributes@[i]->Controller_0 == bridge {
        let i = choose|i: int|
            0 <= i < link.attributes@.len() && (#[trigger] link.attributes@[i]) is Controller
                && link.attributes@[i]->Controller_0 == bridge;
        assert(link.attributes@[i] == LinkAttribute::<S>::Controller(bridge));
    }
}

/// The name of a link is found wherever among its attributes it stands, the first
/// of several, and not found where no attribute holds any.
pub proof fn law_first_name_counts<S>(attrs: Seq<LinkAttribute<S>>, i: int)
    requires
        0 <= i <= attrs.len(),
        forall|k: int| 0 <= k < i ==> !((#[trigger] attrs[k]) is IfName),
        i < attrs.len() ==> attrs[i] is IfName,
    ensures
        i < attrs.len() ==> first_name(attrs) == Some(attrs[i]->IfName_0@),
        i == attrs.len() ==> first_name(attrs) is None,
    decreases i,
{
    if i > 0 {
        let rest = attrs.drop_first();
        assert(!(attrs[0] is IfName));
        assert forall|k: int| 0 <= k < i - 1 implies !((#[trigger] rest[k]) is IfName) by {
            assert(rest[k] == attrs[k + 1]);
        }
        law_first_name_counts(rest, i - 1);
    }
}

/// The statistics of a link are found wherever among its attributes they stand, the first
/// of several, and not found where no attribute holds any.
pub proof fn law_first_stats_counts<S>(attrs: Seq<LinkAttribute<S>>, i: int)
    requires
        0 <= i <= attrs.len(),
        forall|k: int| 0 <= k < i ==> !((#[trigger] attrs[k]) is Stats),
        i < attrs.len() ==> attrs[i] is Stats,
    ensures
        i < attrs.len() ==> first_stats(attrs) == Some(attrs[i]->Stats_0),
        i == attrs.len() ==> first_stats(attrs) is None,
    decreases i,
{
    if i > 0 {
        let rest = attrs.drop_first();
        assert(!(attrs[0] is Stats));
        assert forall|k: int| 0 <= k < i - 1 implies !((#[trigger] rest[k]) is Stats) by {
            assert(rest[k] == attrs[k + 1]);
        }
        law_first_stats_counts(rest, i - 1);
    }
}

/// The ports of a bridge: the names of the links that are ports of it and have one,
/// in the order of the links.
pub proof fn law_every_port_is_named<S>(
    s: Seq<LinkMessage<S>>,
    t: Seq<LinkMessage<S>>,
    x: LinkMessage<S>,
    bridge: u32,
)
    ensures
        ports_of(Seq::<LinkMessage<S>>::empty(), bridge).len() == 0,
        is_port(x, bridge) && first_name(x.attributes@) is Some ==> ports_of(seq![x], bridge)
            == seq![first_name(x.attributes@)->0],
        !is_port(x, bridge) || first_name(x.attributes@) is None ==> ports_of(
            seq![x],
            bridge,
        ).len() == 0,
        ports_of(s + t, bridge) == ports_of(s, bridge) + ports_of(t, bridge),
    decreases t.len(),
{
    assert(seq![x].drop_last() =~= Seq::empty());
    assert(ports_of(Seq::<LinkMessage<S>>::empty(), bridge) =~= Seq::empty());
    assert(seq![x].last() == x);
    assert(is_port(x, bridge) && first_name(x.attributes@) is Some ==> ports_of(seq![x], bridge)
        =~= seq![first_name(x.attributes@)->0]);
    if t.len() == 0 {
        assert(s + t =~= s);
        assert(ports_of(s, bridge) + ports_of(t, bridge) =~= ports_of(s, bridge));
    } else {
        law_every_port_is_named(s, t.drop_last(), x, bridge);
        assert((s + t).drop_last() =~= s + t.drop_last());
        assert(ports_of(s + t, bridge) =~= ports_of(s, bridge) + ports_of(t, bridge));
    }
}

/// The attribute holds an address from `fe80::` to the last one that begins with
/// `febf`.
pub open spec fn names_link_local(attr: AddressAttribute) -> bool {
    attr is Address && attr->Address_0 is V6 && 0xfe80_0000_0000_0000_0000_0000_0000_0000
        <= attr->Address_0->V6_0.bits <= 0xfebf_ffff_ffff_ffff_ffff_ffff_ffff_ffff
}

proof fn lemma_first_link_local(attrs: Seq<AddressAttribute>, i: int)
    requires
        0 <= i <= attrs.len(),
        forall|k: int| 0 <= k < i ==> !names_link_local(#[trigger] attrs[k]),
        i < attrs.len() ==> names_link_local(attrs[i]),
    ensures
        i < attrs.len() ==> first_link_local(attrs) == Some(attrs[i]->Address_0->V6_0),
        i == attrs.len() ==> first_link_local(attrs) is None,
    decreases i,
{
    if i < attrs.len() {
        law_link_local_range(attrs[i]->Address_0->V6_0);
    }
    if i > 0 {
        let rest = attrs.drop_first();
        assert(!names_link_local(attrs[0]));
        if attrs[0] is Address && attrs[0]->Address_0 is V6 {
            law_link_local_range(attrs[0]->Address_0->V6_0);
        }
        assert forall|k: int| 0 <= k < i - 1 implies !names_link_local(#[trigger] rest[k]) by {
            assert(rest[k] == attrs[k + 1]);
        }
        lemma_first_link_local(rest, i - 1);
    }
}

/// The link-local address of a link is the first one that any of its address
/// messages names; the ones that are not link-local are passed over.
pub proof fn law_first_link_local_counts(msgs: Seq<AddressMessage>, m: int, i: int)
    requires
        0 <= m < msgs.len(),
        0 <= i < msgs[m].attributes@.len(),
        names_link_local(msgs[m].attributes@[i]),
        forall|k: int| 0 <= k < i ==> !names_link_local(#[trigger] msgs[m].attributes@[k]),
        forall|l: int, k: int|
            0 <= l < m && 0 <= k < msgs[l].attributes@.len() ==> !names_link_local(
                #[trigger] msgs[l].attributes@[k],
            ),
    ensures
        link_local_of(msgs) == Some(msgs[m].attributes@[i]->Address_0->V6_0),
    decreases m,
{
    if m == 0 {
        lemma_first_link_local(msgs[0].attributes@, i);
    } else {
        lemma_first_link_local(msgs[0].attributes@, msgs[0].attributes@.len() as int);
        let rest = msgs.drop_first();
        assert(rest[m - 1] == msgs[m]);
        assert forall|l: int, k: int|
            0 <= l < m - 1 && 0 <= k < rest[l].attributes@.len() implies !names_link_local(
            #[trigger] rest[l].attributes@[k],
        ) by {
            assert(rest[l] == msgs[l + 1]);
            assert(!names_link_local(msgs[l + 1].attributes@[k]));
        }
        law_first_link_local_counts(rest, m - 1, i);
    }
}

/// Without a link-local address in any message there is none.
pub proof fn law_no_link_local_to_find(msgs: Seq<AddressMessage>)
    requires
        forall|l: int, k: int|
            0 <= l < msgs.len() && 0 <= k < msgs[l].attributes@.len() ==> !names_link_local(
                #[trigger] msgs[l].attributes@[k],
            ),
    ensures
        link_local_of(msgs) is None,
    decreases msgs.len(),
{
    if msgs.len() > 0 {
        lemma_first_link_local(msgs[0].attributes@, msgs[0].attributes@.len() as int);
        let rest = msgs.drop_first();
        assert forall|l: int, k: int|
            0 <= l < rest.len() && 0 <= k < rest[l].attributes@.len() implies !names_link_local(
            #[trigger] rest[l].attributes@[k],
        ) by {
            assert(rest[l] == msgs[l + 1]);
            assert(!names_link_local(msgs[l + 1].attributes@[k]));
        }
        law_no_link_local_to_find(rest);
    }
}

/// A default route for each source address that is given, over the gateway and the
/// device, the one of IPv6 first.
pub proof fn law_default_route_for_each_source(
    gateway: Ipv6Addr,
    device: u32,
    v4: Ipv4Addr,
    v6: Ipv6Addr,
)
    ensures
        default_routes(gateway, device, None, None).len() == 0,
        default_routes(gateway, device, Some(v4), None) == seq![
            DefaultRoute::V4 { via: gateway, output_interface: device, pref_source: v4 },
        ],
        default_routes(gateway, device, None, Some(v6)) == seq![
            DefaultRoute::V6 { gateway, output_interface: device, pref_source: v6 },
        ],
        default_routes(gateway, device, Some(v4), Some(v6)) == seq![
            DefaultRoute::V6 { gateway, output_interface: device, pref_source: v6 },
            DefaultRoute::V4 { via: gateway, output_interface: device, pref_source: v4 },
        ],
{
    assert(default_routes(gateway, device, None, None) =~= Seq::empty());
    assert(default_routes(gateway, device, Some(v4), None) =~= seq![
        DefaultRoute::V4 { via: gateway, output_interface: device, pref_source: v4 },
    ]);
    assert(default_routes(gateway, device, None, Some(v6)) =~= seq![
        DefaultRoute::V6 { gateway, output_interface: device, pref_source: v6 },
    ]);
    assert(default_routes(gateway, device, Some(v4), Some(v6)) =~= seq![
        DefaultRoute::V6 { gateway, output_interface: device, pref_source: v6 },
        DefaultRoute::V4 { via: gateway, output_interface: device, pref_source: v4 },
    ]);
}

} // verus!
