//! What an OSPF router says about one of its interfaces in its Router LSA, and the Network
//! LSA it originates as designated router of a broadcast network: a transit link when a full
//! neighbor shares the network with a designated router, else a stub link for the interface's
//! prefix, and a point-to-point link to each full neighbor on a point-to-point interface.
use crate::ipv4::{mask_bits, Ipv4InterfaceConfig, Ipv4Network};
use crate::ospf::{LsaView, OspfLsa};
use crate::routing::InterfaceId;
use vstd::prelude::*;

verus! {

/// The first sequence number of an LSA.
pub const LSA_INITIAL_SEQUENCE: i32 = -2147483647;

/// How an OSPF interface reaches its neighbors.
#[derive(Debug, Clone, Copy, PartialEq, Eq, Structural)]
pub enum OspfNetworkType {
    Broadcast,
    PointToPoint,
}

/// The kinds of Router LSA links.
#[derive(Debug, Clone, Copy, PartialEq, Eq, Structural)]
pub enum RouterLinkKind {
    PointToPoint,
    Transit,
    Stub,
}

/// One link of a Router LSA: its identifier and data (whose meaning depends on the kind), and
/// its metric.
#[derive(Debug, Clone, Copy, PartialEq, Eq)]
pub struct RouterLink {
    pub id: u32,
    pub data: u32,
    pub kind: RouterLinkKind,
    pub metric: u16,
}

/// An interface OSPF runs on: its address, whether it is a loopback, its cost and network
/// type, and the designated router it knows, when it runs the protocol there.
#[derive(Debug, Clone, Copy)]
pub struct OspfActiveInterface {
    pub id: InterfaceId,
    pub ip: Ipv4InterfaceConfig,
    pub loopback: bool,
    pub cost: u16,
    pub network: OspfNetworkType,
    pub dr: Option<u32>,
}

/// A neighbor as the links need it: its interface, router identifier and address, and
/// whether the adjacency is full.
#[derive(Debug, Clone, Copy, PartialEq, Eq)]
pub struct OspfLinkNeighbor {
    pub interface: InterfaceId,
    pub router_id: u32,
    pub address: u32,
    pub full: bool,
}

/// The full neighbors on interface `id`, in table order.
pub open spec fn full_on(ns: Seq<OspfLinkNeighbor>, id: InterfaceId) -> Seq<OspfLinkNeighbor> {
    ns.filter(|n: OspfLinkNeighbor| n.interface == id && n.full)
}

/// Whether the interface is a transit network: broadcast, run with a designated router that
/// is this router or one of its full neighbors there.
pub open spec fn is_transit(i: OspfActiveInterface, full: Seq<OspfLinkNeighbor>) -> bool {
    &&& i.network is Broadcast
    &&& i.dr is Some
    &&& full.len() > 0
    &&& (i.dr == Some(i.ip@.0) || exists|k: int| 0 <= k < full.len() && Some(#[trigger] full[k].address) == i.dr)
}

/// The links an interface adds to the Router LSA, given its full neighbors.
pub open spec fn links_spec(i: OspfActiveInterface, full: Seq<OspfLinkNeighbor>) -> Seq<RouterLink> {
    let first = if is_transit(i, full) {
        RouterLink { id: i.dr->Some_0, data: i.ip@.0, kind: RouterLinkKind::Transit, metric: i.cost }
    } else {
        let len: u8 = if i.loopback { 32 } else { i.ip@.1 };
        RouterLink {
            id: i.ip@.0 & mask_bits(len),
            data: if i.loopback { 0xffff_ffff } else { mask_bits(i.ip@.1) },
            kind: RouterLinkKind::Stub,
            metric: i.cost,
        }
    };
    seq![first] + if i.network is PointToPoint {
        full.map_values(|n: OspfLinkNeighbor| RouterLink { id: n.router_id, data: i.ip@.0, kind: RouterLinkKind::PointToPoint, metric: i.cost })
    } else {
        Seq::empty()
    }
}

/// Whether numbers strictly increase.
pub open spec fn increasing(s: Seq<u32>) -> bool {
    forall|a: int, b: int| 0 <= a < b < s.len() ==> #[trigger] s[a] < #[trigger] s[b]
}

/// The Network LSA of the interface, when this router is its designated router: named by the
/// interface address, its body the network mask followed by the router identifiers of the
/// full neighbors and this router, in increasing order (`routers`).
pub open spec fn network_spec(i: OspfActiveInterface, full: Seq<OspfLinkNeighbor>, self_id: u32, routers: Seq<u32>) -> Option<LsaView> {
    if is_transit(i, full) && i.dr == Some(i.ip@.0) {
        Some(LsaView {
            kind: 2,
            link_state_id: i.ip@.0,
            advertising_router: self_id,
            age: 0,
            sequence: LSA_INITIAL_SEQUENCE,
            body: seq![mask_bits(i.ip@.1)] + routers,
        })
    } else {
        None
    }
}

/// The routers of a network: increasing, the full neighbors' identifiers and this router's.
pub open spec fn network_routers(r: Seq<u32>, full: Seq<OspfLinkNeighbor>, self_id: u32) -> bool {
    &&& increasing(r)
    &&& r.len() == full.len() + 1
    &&& forall|x: u32| r.contains(x) <==> (x == self_id || exists|k: int| 0 <= k < full.len() && #[trigger] full[k].router_id == x)
}

/// Insert `x` into increasing numbers that do not hold it.
pub(crate) fn insert_increasing(v: &mut Vec<u32>, x: u32)
    requires
        increasing(old(v)@),
        !old(v)@.contains(x),
    ensures
        increasing(final(v)@),
        final(v)@.len() == old(v)@.len() + 1,
        forall|y: u32| final(v)@.contains(y) <==> (old(v)@.contains(y) || y == x),
{
    let ghost o = v@;
    let mut p: usize = 0;
    while p < v.len() && v[p] < x
        invariant
            p <= o.len(),
            v@ == o,
            forall|k: int| 0 <= k < p ==> (#[trigger] o[k]) < x,
        decreases o.len() - p,
    {
        p = p + 1;
    }
    proof {
        assert forall|k: int| p <= k < o.len() implies x < #[trigger] o[k] by {
            assert(o[p as int] >= x);
            assert(o[p as int] != x) by {
                assert(o.contains(o[p as int]));
            }
            if k > p {
                assert(o[p as int] < o[k]);
            }
        }
    }
    v.insert(p, x);
    proof {
        let n = v@;
        assert(n =~= o.insert(p as int, x));
        assert forall|a: int, b: int| 0 <= a < b < n.len() implies #[trigger] n[a] < #[trigger] n[b] by {
            if b < p {
                assert(n[a] == o[a] && n[b] == o[b]);
            } else if b == p {
                assert(n[a] == o[a]);
            } else if a < p {
                assert(n[a] == o[a] && n[b] == o[b - 1]);
            } else if a == p {
                assert(n[b] == o[b - 1]);
            } else {
                assert(n[a] == o[a - 1] && n[b] == o[b - 1]);
            }
        }
        assert forall|y: u32| n.contains(y) <==> (o.contains(y) || y == x) by {
            if n.contains(y) {
                let k = choose|k: int| 0 <= k < n.len() && n[k] == y;
                if k < p {
                    assert(o[k] == y);
                } else if k > p {
                    assert(o[k - 1] == y);
                }
            }
            if o.contains(y) {
                let k = choose|k: int| 0 <= k < o.len() && o[k] == y;
                if k < p {
                    assert(n[k] == y);
                } else {
                    assert(n[k + 1] == y);
                }
            }
            if y == x {
                assert(n[p as int] == x);
            }
        }
    }
}

/// The links interface `i` adds to the Router LSA of router `self_id`, and its Network LSA when
/// this router is the designated router there. `neighbors` is the neighbor table; on one
/// interface, router identifiers differ from each other and from this router's.
pub fn ospf_interface_lsas(
    i: &OspfActiveInterface,
    neighbors: &[OspfLinkNeighbor],
    self_id: u32,
) -> (r: (Vec<RouterLink>, Option<OspfLsa>))
    requires
        forall|a: int, b: int|
            0 <= a < b < full_on(neighbors@, i.id).len() ==> (#[trigger] full_on(neighbors@, i.id)[a]).router_id
                != (#[trigger] full_on(neighbors@, i.id)[b]).router_id,
        forall|a: int| 0 <= a < full_on(neighbors@, i.id).len() ==> (#[trigger] full_on(neighbors@, i.id)[a]).router_id != self_id,
    ensures
        r.0@ == links_spec(*i, full_on(neighbors@, i.id)),
        match r.1 {
            Some(l) => network_routers(l@.body.skip(1), full_on(neighbors@, i.id), self_id)
                && network_spec(*i, full_on(neighbors@, i.id), self_id, l@.body.skip(1)) == Some(l@),
            None => network_spec(*i, full_on(neighbors@, i.id), self_id, Seq::empty()) is None,
        },
{
    let ghost ns = neighbors@;
    let ghost pred = |n: OspfLinkNeighbor| n.interface == i.id && n.full;
    let mut full: Vec<OspfLinkNeighbor> = Vec::new();
    let mut k: usize = 0;
    while k < neighbors.len()
        invariant
            k <= ns.len(),
            ns == neighbors@,
            pred == (|n: OspfLinkNeighbor| n.interface == i.id && n.full),
            full@ == ns.take(k as int).filter(pred),
        decreases ns.len() - k,
    {
        let n = neighbors[k];
        proof {
            assert(ns.take(k + 1) =~= ns.take(k as int).push(n));
            ns.take(k as int).lemma_filter_push(n, pred);
        }
        if n.interface.0 == i.id.0 && n.full {
            full.push(n);
        }
        k = k + 1;
    }
    proof {
        assert(ns.take(ns.len() as int) =~= ns);
    }
    let ghost f = full@;
    let address = i.ip.address().0;
    let mut dr_known = false;
    let mut m: usize = 0;
    while m < full.len()
        invariant
            m <= f.len(),
            f == full@,
            dr_known == exists|q: int| 0 <= q < m && Some(#[trigger] f[q].address) == i.dr,
        decreases f.len() - m,
    {
        match i.dr {
            Some(d) => {
                if full[m].address == d {
                    dr_known = true;
                }
            },
            None => {},
        }
        m = m + 1;
    }
    let self_dr = match i.dr {
        Some(d) => d == address,
        None => false,
    };
    let transit = match i.network {
        OspfNetworkType::Broadcast => i.dr.is_some() && full.len() > 0 && (self_dr || dr_known),
        OspfNetworkType::PointToPoint => false,
    };
    let mut links: Vec<RouterLink> = Vec::new();
    if transit {
        let d = match i.dr {
            Some(d) => d,
            None => 0,
        };
        links.push(RouterLink { id: d, data: address, kind: RouterLinkKind::Transit, metric: i.cost });
    } else {
        let len: u8 = if i.loopback { 32 } else { i.ip.prefix_len() };
        let prefix = match Ipv4Network::new(i.ip.address(), len) {
            Ok(n) => n.address().0,
            Err(_) => 0,
        };
        let data = if i.loopback { 0xffff_ffffu32 } else { i.ip.mask().0 };
        links.push(RouterLink { id: prefix, data, kind: RouterLinkKind::Stub, metric: i.cost });
    }
    let ghost first = links@;
    match i.network {
        OspfNetworkType::PointToPoint => {
            let mut q: usize = 0;
            while q < full.len()
                invariant
                    q <= f.len(),
                    f == full@,
                    links@ == first + f.take(q as int).map_values(
                        |n: OspfLinkNeighbor| RouterLink { id: n.router_id, data: address, kind: RouterLinkKind::PointToPoint, metric: i.cost },
                    ),
                decreases f.len() - q,
            {
                links.push(RouterLink { id: full[q].router_id, data: address, kind: RouterLinkKind::PointToPoint, metric: i.cost });
                proof {
                    assert(f.take(q + 1) =~= f.take(q as int).push(f[q as int]));
                    assert(links@ =~= first + f.take(q + 1).map_values(
                        |n: OspfLinkNeighbor| RouterLink { id: n.router_id, data: address, kind: RouterLinkKind::PointToPoint, metric: i.cost },
                    ));
                }
                q = q + 1;
            }
            proof {
                assert(f.take(f.len() as int) =~= f);
            }
        },
        OspfNetworkType::Broadcast => {
            assert(links@ =~= first + Seq::<RouterLink>::empty());
        },
    }
    if !(transit && self_dr) {
        return (links, None);
    }
    let mut routers: Vec<u32> = Vec::new();
    routers.push(self_id);
    proof {
        assert(increasing(routers@));
        assert(f == full_on(neighbors@, i.id));
        assert forall|x: u32| routers@.contains(x) <==> (x == self_id || exists|k: int| 0 <= k < 0 && #[trigger] f[k].router_id == x) by {
            if routers@.contains(x) {
                let k = choose|k: int| 0 <= k < routers@.len() && routers@[k] == x;
                assert(routers@[k] == self_id);
            }
            if x == self_id {
                assert(routers@[0] == x);
            }
        }
    }
    let mut q: usize = 0;
    while q < full.len()
        invariant
            q <= f.len(),
            f == full@,
            increasing(routers@),
            routers@.len() == q + 1,
            forall|a: int, b: int| 0 <= a < b < f.len() ==> (#[trigger] f[a]).router_id != (#[trigger] f[b]).router_id,
            forall|a: int| 0 <= a < f.len() ==> (#[trigger] f[a]).router_id != self_id,
            forall|x: u32| routers@.contains(x) <==> (x == self_id || exists|k: int| 0 <= k < q && #[trigger] f[k].router_id == x),
        decreases f.len() - q,
    {
        let x = full[q].router_id;
        proof {
            if routers@.contains(x) {
                if x != self_id {
                    let k = choose|k: int| 0 <= k < q && #[trigger] f[k].router_id == x;
                    assert(f[k].router_id != f[q as int].router_id);
                }
            }
        }
        insert_increasing(&mut routers, x);
        proof {
            assert forall|y: u32| routers@.contains(y) <==> (y == self_id || exists|k: int| 0 <= k < q + 1 && #[trigger] f[k].router_id == y) by {
                if y == x {
                    assert(f[q as int].router_id == y);
                }
                if exists|k: int| 0 <= k < q + 1 && #[trigger] f[k].router_id == y {
                    let k = choose|k: int| 0 <= k < q + 1 && #[trigger] f[k].router_id == y;
                    if k < q {
                        assert(exists|k2: int| 0 <= k2 < q && #[trigger] f[k2].router_id == y);
                    }
                }
            }
        }
        q = q + 1;
    }
    let mut body: Vec<u32> = Vec::new();
    body.push(i.ip.mask().0);
    let ghost rs = routers@;
    let mut q2: usize = 0;
    while q2 < routers.len()
        invariant
            q2 <= rs.len(),
            rs == routers@,
            body@ == seq![mask_bits(i.ip@.1)] + rs.take(q2 as int),
        decreases rs.len() - q2,
    {
        body.push(routers[q2]);
        proof {
            assert(rs.take(q2 + 1) =~= rs.take(q2 as int).push(rs[q2 as int]));
            assert(body@ =~= seq![mask_bits(i.ip@.1)] + rs.take(q2 + 1));
        }
        q2 = q2 + 1;
    }
    proof {
        assert(rs.take(rs.len() as int) =~= rs);
        assert(body@.skip(1) =~= rs);
    }
    let lsa = OspfLsa { kind: 2, link_state_id: address, advertising_router: self_id, age: 0, sequence: LSA_INITIAL_SEQUENCE, body };
    (links, Some(lsa))
}

/// The type number of a Router LSA link.
pub open spec fn link_type(k: RouterLinkKind) -> u32 {
    match k {
        RouterLinkKind::PointToPoint => 1,
        RouterLinkKind::Transit => 2,
        RouterLinkKind::Stub => 3,
    }
}

/// The encoded links: each its identifier, its data, and its type and metric.
pub open spec fn links_words(ls: Seq<RouterLink>) -> Seq<u32>
    decreases ls.len(),
{
    if ls.len() == 0 {
        Seq::empty()
    } else {
        links_words(ls.drop_last()) + seq![ls.last().id, ls.last().data, (link_type(ls.last().kind) * 0x100_0000 + ls.last().metric) as u32]
    }
}

/// The Router LSA of router `self_id` in an area with links `ls` and flags `flags` (border
/// router 1, AS boundary router 2): its body the flags and the number of links, then the
/// links.
pub open spec fn router_lsa_spec(ls: Seq<RouterLink>, flags: u8, self_id: u32) -> LsaView {
    LsaView {
        kind: 1,
        link_state_id: self_id,
        advertising_router: self_id,
        age: 0,
        sequence: LSA_INITIAL_SEQUENCE,
        body: seq![(flags * 0x100_0000 + ls.len()) as u32] + links_words(ls),
    }
}

/// The Router LSA flags: a border router (in the backbone and another area) and an AS
/// boundary router (with external routes).
pub open spec fn router_flags(areas: Seq<u32>, external: bool) -> u8 {
    ((if areas.len() > 1 && areas.contains(0) { 1u8 } else { 0u8 }) + (if external { 2u8 } else { 0u8 })) as u8
}

/// The Router LSA of router `self_id` with links `links` and flags `flags`.
pub fn ospf_router_lsa(links: &Vec<RouterLink>, flags: u8, self_id: u32) -> (r: OspfLsa)
    requires
        links@.len() <= 0xffff,
    ensures
        r@ == router_lsa_spec(links@, flags, self_id),
{
    let mut body: Vec<u32> = Vec::new();
    let head: u32 = (flags as u32) * 0x100_0000 + links.len() as u32;
    body.push(head);
    let ghost ls = links@;
    let mut i: usize = 0;
    while i < links.len()
        invariant
            i <= ls.len(),
            ls == links@,
            body@ == seq![head] + links_words(ls.take(i as int)),
        decreases ls.len() - i,
    {
        let l = links[i];
        let t: u32 = match l.kind {
            RouterLinkKind::PointToPoint => 1,
            RouterLinkKind::Transit => 2,
            RouterLinkKind::Stub => 3,
        };
        body.push(l.id);
        body.push(l.data);
        body.push(t * 0x100_0000 + l.metric as u32);
        proof {
            assert(ls.take(i + 1).drop_last() =~= ls.take(i as int));
            assert(ls.take(i + 1).last() == l);
            assert(body@ =~= seq![head] + links_words(ls.take(i + 1)));
        }
        i = i + 1;
    }
    proof {
        assert(ls.take(ls.len() as int) =~= ls);
    }
    OspfLsa { kind: 1, link_state_id: self_id, advertising_router: self_id, age: 0, sequence: LSA_INITIAL_SEQUENCE, body }
}

/// The Router LSA flags of a router in `areas`, with or without external routes.
pub fn ospf_router_flags(areas: &Vec<u32>, external: bool) -> (r: u8)
    ensures
        r == router_flags(areas@, external),
{
    let mut backbone = false;
    let mut i: usize = 0;
    while i < areas.len()
        invariant
            i <= areas@.len(),
            backbone == exists|j: int| 0 <= j < i && areas@[j] == 0,
        decreases areas@.len() - i,
    {
        if areas[i] == 0 {
            backbone = true;
        }
        i = i + 1;
    }
    let border: u8 = if areas.len() > 1 && backbone { 1 } else { 0 };
    let asbr: u8 = if external { 2 } else { 0 };
    proof {
        assert(backbone == areas@.contains(0));
    }
    border + asbr
}

} // verus!
