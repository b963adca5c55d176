//! IPv6 forwarding selection over resolved route candidates, with explicit link-local
//! interface scope.
use crate::routing::InterfaceId;
use vstd::prelude::*;

verus! {

/// A 128-bit IPv6 address, most significant bit first.
#[derive(Debug, Clone, Copy, PartialEq, Eq, PartialOrd, Ord, Hash, Structural)]
pub struct Ipv6Addr(pub u128);

/// Whether an address lies in the unicast link-local range fe80::/10.
pub open spec fn link_local(address: u128) -> bool {
    address >> 118u32 == 0x3fau128
}

impl Ipv6Addr {
    /// Whether the address is unicast link-local (fe80::/10).
    pub fn is_unicast_link_local(self) -> (r: bool)
        ensures
            r == link_local(self.0),
    {
        self.0 >> 118u32 == 0x3fau128
    }
}

/// The network address of `address` under a prefix of `prefix_len` bits.
pub open spec fn prefix_network(address: u128, prefix_len: u8) -> u128 {
    if prefix_len == 0 {
        0
    } else {
        (address >> ((128 - prefix_len) as u32)) << ((128 - prefix_len) as u32)
    }
}

/// Whether `address` lies inside the prefix `network/prefix_len`: the leading
/// `prefix_len` bits agree.
pub open spec fn in_prefix6(network: u128, prefix_len: u8, address: u128) -> bool {
    prefix_len == 0 || address >> ((128 - prefix_len) as u32) == network >> ((128 - prefix_len) as u32)
}

/// An IPv6 prefix normalized to its network address.
#[derive(Debug, Clone, Copy, PartialEq, Eq)]
pub struct Ipv6Network {
    address: Ipv6Addr,
    prefix_len: u8,
}

impl View for Ipv6Network {
    type V = (u128, u8);

    closed spec fn view(&self) -> (u128, u8) {
        (self.address.0, self.prefix_len)
    }
}

impl Ipv6Network {
    #[verifier::type_invariant]
    spec fn normalized(self) -> bool {
        &&& self.prefix_len <= 128
        &&& self.address.0 == prefix_network(self.address.0, self.prefix_len)
    }

    /// The prefix of `prefix_len` bits around `address`, if `prefix_len` is at most 128.
    pub fn new(address: Ipv6Addr, prefix_len: u8) -> (r: Option<Ipv6Network>)
        ensures
            r is Some <==> prefix_len <= 128,
            r matches Some(n) ==> n@ == (prefix_network(address.0, prefix_len), prefix_len),
    {
        if prefix_len > 128 {
            return None;
        }
        let raw = address.0;
        if prefix_len == 0 {
            return Some(Ipv6Network { address: Ipv6Addr(0), prefix_len });
        }
        let shift: u32 = 128 - prefix_len as u32;
        let bits = (raw >> shift) << shift;
        assert(((bits >> shift) << shift) == bits) by (bit_vector)
            requires
                bits == (raw >> shift) << shift,
                shift < 128,
        ;
        Some(Ipv6Network { address: Ipv6Addr(bits), prefix_len })
    }

    /// Network address with host bits cleared.
    pub fn address(self) -> (r: Ipv6Addr)
        ensures
            r.0 == self@.0,
    {
        self.address
    }

    /// Prefix width in bits.
    pub fn prefix_len(self) -> (r: u8)
        ensures
            r == self@.1,
            r <= 128,
    {
        proof {
            use_type_invariant(&self);
        }
        self.prefix_len
    }

    /// Whether an address belongs to this prefix.
    pub fn contains(self, address: Ipv6Addr) -> (r: bool)
        ensures
            r == in_prefix6(self@.0, self@.1, address.0),
    {
        proof {
            use_type_invariant(&self);
        }
        if self.prefix_len == 0 {
            return true;
        }
        let shift: u32 = 128 - self.prefix_len as u32;
        address.0 >> shift == self.address.0 >> shift
    }
}

/// Source of an installed IPv6 route.
#[derive(Debug, Clone, Copy, PartialEq, Eq, Structural)]
pub enum Ipv6RouteSource {
    Connected,
    Static,
    RouterAdvertisement,
}

/// A resolved IPv6 route candidate, independent of IPv4 route state.
#[derive(Debug, Clone, Copy, PartialEq, Eq)]
pub struct Ipv6Route {
    pub prefix: Ipv6Network,
    pub next_hop: Option<Ipv6Addr>,
    pub interface: InterfaceId,
    pub administrative_distance: u8,
    pub metric: u32,
    pub source: Ipv6RouteSource,
}

/// Outgoing interface, selected source and neighbor to resolve for an IPv6 packet.
#[derive(Debug, Clone, Copy, PartialEq, Eq, Structural)]
pub struct ResolvedIpv6Route {
    pub interface: InterfaceId,
    pub source_ip: Ipv6Addr,
    pub next_hop: Ipv6Addr,
}

/// Whether route `r` may carry a packet to `destination`: its prefix contains the
/// destination and, when a scope interface is given, it leaves through that interface.
pub open spec fn eligible6(r: Ipv6Route, destination: Ipv6Addr, scope: Option<InterfaceId>) -> bool {
    &&& in_prefix6(r.prefix@.0, r.prefix@.1, destination.0)
    &&& match scope {
        Some(id) => r.interface == id,
        None => true,
    }
}

/// Whether an unscoped link-local destination is reachable through more than one
/// interface by routes more specific than the default route, so that the outgoing link
/// cannot be chosen.
pub open spec fn ambiguous_link_local(
    routes: Seq<Ipv6Route>,
    destination: Ipv6Addr,
    scope: Option<InterfaceId>,
) -> bool {
    &&& link_local(destination.0)
    &&& scope is None
    &&& exists|i: int, j: int|
        0 <= i < routes.len() && 0 <= j < routes.len() && eligible6(#[trigger] routes[i], destination, scope)
            && eligible6(#[trigger] routes[j], destination, scope) && routes[i].prefix@.1 > 0
            && routes[j].prefix@.1 > 0 && routes[i].interface != routes[j].interface
}

/// Whether `a` is preferred over `b`: a longer prefix, then a lower administrative
/// distance, then a lower metric, then a lower interface number.
pub open spec fn ranks_before(a: Ipv6Route, b: Ipv6Route) -> bool {
    ||| a.prefix@.1 > b.prefix@.1
    ||| a.prefix@.1 == b.prefix@.1 && a.administrative_distance < b.administrative_distance
    ||| a.prefix@.1 == b.prefix@.1 && a.administrative_distance == b.administrative_distance
        && a.metric < b.metric
    ||| a.prefix@.1 == b.prefix@.1 && a.administrative_distance == b.administrative_distance
        && a.metric == b.metric && a.interface.0 < b.interface.0
}

/// Whether the route at `i` is the one selected: eligible, preferred over no eligible
/// route, and the first of the equally preferred ones.
pub open spec fn is_selected6(
    routes: Seq<Ipv6Route>,
    destination: Ipv6Addr,
    scope: Option<InterfaceId>,
    i: int,
) -> bool {
    &&& 0 <= i < routes.len()
    &&& eligible6(routes[i], destination, scope)
    &&& forall|j: int|
        0 <= j < routes.len() && eligible6(#[trigger] routes[j], destination, scope) ==> !ranks_before(
            routes[j],
            routes[i],
        )
    &&& forall|j: int|
        0 <= j < i && eligible6(#[trigger] routes[j], destination, scope) ==> ranks_before(
            routes[i],
            routes[j],
        )
}

fn eligible_route(r: &Ipv6Route, destination: Ipv6Addr, scope: Option<InterfaceId>) -> (b: bool)
    ensures
        b == eligible6(*r, destination, scope),
{
    r.prefix.contains(destination) && match scope {
        Some(id) => r.interface.0 == id.0,
        None => true,
    }
}

fn ranks_before_exec(a: &Ipv6Route, b: &Ipv6Route) -> (r: bool)
    ensures
        r == ranks_before(*a, *b),
{
    let (pa, pb) = (a.prefix.prefix_len(), b.prefix.prefix_len());
    if pa != pb {
        return pa > pb;
    }
    if a.administrative_distance != b.administrative_distance {
        return a.administrative_distance < b.administrative_distance;
    }
    if a.metric != b.metric {
        return a.metric < b.metric;
    }
    a.interface.0 < b.interface.0
}

/// Choose the route for `destination` among `routes`, limited to interface `scope` when
/// one is given: the most specific prefix, then the lowest administrative distance, metric
/// and interface number, the first listed among equals. An unscoped link-local destination
/// that more specific routes reach through several interfaces gets no route.
pub fn select_ipv6_route(routes: &[Ipv6Route], destination: Ipv6Addr, scope: Option<InterfaceId>) -> (r:
    Option<usize>)
    ensures
        match r {
            Some(i) => !ambiguous_link_local(routes@, destination, scope) && is_selected6(
                routes@,
                destination,
                scope,
                i as int,
            ),
            None => ambiguous_link_local(routes@, destination, scope) || forall|i: int|
                0 <= i < routes@.len() ==> !eligible6(#[trigger] routes@[i], destination, scope),
        },
{
    if destination.is_unicast_link_local() && scope.is_none() {
        let mut first: Option<usize> = None;
        let mut k: usize = 0;
        while k < routes.len()
            invariant
                k <= routes@.len(),
                scope is None,
                link_local(destination.0),
                match first {
                    Some(f) => f < k && eligible6(routes@[f as int], destination, scope)
                        && routes@[f as int].prefix@.1 > 0 && forall|m: int|
                        0 <= m < k && eligible6(#[trigger] routes@[m], destination, scope)
                            && routes@[m].prefix@.1 > 0 ==> routes@[m].interface
                            == routes@[f as int].interface,
                    None => forall|m: int|
                        0 <= m < k ==> !(eligible6(#[trigger] routes@[m], destination, scope)
                            && routes@[m].prefix@.1 > 0),
                },
            decreases routes@.len() - k,
        {
            let r = &routes[k];
            if eligible_route(r, destination, scope) && r.prefix.prefix_len() > 0 {
                match first {
                    None => {
                        first = Some(k);
                    },
                    Some(f) => {
                        if routes[f].interface.0 != r.interface.0 {
                            assert(eligible6(routes@[f as int], destination, scope));
                            assert(eligible6(routes@[k as int], destination, scope));
                            return None;
                        }
                    },
                }
            }
            k = k + 1;
        }
        proof {
            if ambiguous_link_local(routes@, destination, scope) {
                let (i, j) = choose|i: int, j: int|
                    0 <= i < routes@.len() && 0 <= j < routes@.len() && eligible6(
                        #[trigger] routes@[i],
                        destination,
                        scope,
                    ) && eligible6(#[trigger] routes@[j], destination, scope)
                        && routes@[i].prefix@.1 > 0 && routes@[j].prefix@.1 > 0
                        && routes@[i].interface != routes@[j].interface;
                assert(eligible6(routes@[i], destination, scope));
                assert(eligible6(routes@[j], destination, scope));
            }
        }
    }
    let mut best: Option<usize> = None;
    let mut k: usize = 0;
    while k < routes.len()
        invariant
            k <= routes@.len(),
            !ambiguous_link_local(routes@, destination, scope),
            match best {
                Some(b) => is_selected6(routes@.take(k as int), destination, scope, b as int),
                None => forall|m: int|
                    0 <= m < k ==> !eligible6(#[trigger] routes@[m], destination, scope),
            },
        decreases routes@.len() - k,
    {
        let r = &routes[k];
        if eligible_route(r, destination, scope) {
            match best {
                None => {
                    best = Some(k);
                    proof {
                        let t = routes@.take(k + 1);
                        assert forall|j: int| 0 <= j < t.len() && eligible6(#[trigger] t[j], destination, scope) implies !ranks_before(t[j], t[k as int]) by {
                            if j < k {
                                assert(t[j] == routes@[j]);
                            }
                        }
                        assert forall|j: int| 0 <= j < k && eligible6(#[trigger] t[j], destination, scope) implies ranks_before(t[k as int], t[j]) by {
                            assert(t[j] == routes@[j]);
                        }
                    }
                },
                Some(b) => {
                    let better = ranks_before_exec(r, &routes[b]);
                    if better {
                        best = Some(k);
                    }
                    proof {
                        let old_t = routes@.take(k as int);
                        let t = routes@.take(k + 1);
                        assert(old_t[b as int] == routes@[b as int]);
                        if better {
                            assert forall|j: int| 0 <= j < t.len() && eligible6(#[trigger] t[j], destination, scope) implies !ranks_before(t[j], t[k as int]) by {
                                if j < k {
                                    assert(t[j] == old_t[j]);
                                    assert(!ranks_before(old_t[j], old_t[b as int]));
                                }
                            }
                            assert forall|j: int| 0 <= j < k && eligible6(#[trigger] t[j], destination, scope) implies ranks_before(t[k as int], t[j]) by {
                                assert(t[j] == old_t[j]);
                                assert(!ranks_before(old_t[j], old_t[b as int]));
                            }
                        } else {
                            assert forall|j: int| 0 <= j < t.len() && eligible6(#[trigger] t[j], destination, scope) implies !ranks_before(t[j], t[b as int]) by {
                                if j < k {
                                    assert(t[j] == old_t[j]);
                                }
                            }
                            assert forall|j: int| 0 <= j < b && eligible6(#[trigger] t[j], destination, scope) implies ranks_before(t[b as int], t[j]) by {
                                assert(t[j] == old_t[j]);
                            }
                        }
                    }
                },
            }
        } else {
            proof {
                let t = routes@.take(k + 1);
                if let Some(b) = best {
                    let old_t = routes@.take(k as int);
                    assert forall|j: int| 0 <= j < t.len() && eligible6(#[trigger] t[j], destination, scope) implies !ranks_before(t[j], t[b as int]) by {
                        if j < k {
                            assert(t[j] == old_t[j]);
                        }
                    }
                    assert forall|j: int| 0 <= j < b && eligible6(#[trigger] t[j], destination, scope) implies ranks_before(t[b as int], t[j]) by {
                        assert(t[j] == old_t[j]);
                    }
                }
            }
        }
        k = k + 1;
    }
    proof {
        assert(routes@.take(k as int) =~= routes@);
    }
    best
}

impl ResolvedIpv6Route {
    /// The forwarding decision for `destination` over `route`, sent from `source_ip`: the
    /// route's next hop, or the destination itself on a connected prefix.
    pub fn through(route: &Ipv6Route, source_ip: Ipv6Addr, destination: Ipv6Addr) -> (r: ResolvedIpv6Route)
        ensures
            r.interface == route.interface,
            r.source_ip == source_ip,
            r.next_hop == match route.next_hop {
                Some(hop) => hop,
                None => destination,
            },
    {
        ResolvedIpv6Route {
            interface: route.interface,
            source_ip,
            next_hop: match route.next_hop {
                Some(hop) => hop,
                None => destination,
            },
        }
    }
}

/// At most one route is selected for a destination and scope.
pub proof fn lemma_selected6_unique(
    routes: Seq<Ipv6Route>,
    destination: Ipv6Addr,
    scope: Option<InterfaceId>,
    i: int,
    j: int,
)
    requires
        is_selected6(routes, destination, scope, i),
        is_selected6(routes, destination, scope, j),
    ensures
        i == j,
{
    if i < j {
        assert(ranks_before(routes[j], routes[i]));
    } else if j < i {
        assert(ranks_before(routes[i], routes[j]));
    }
}

/// A scoped lookup only ever selects a route through the scope interface.
pub proof fn lemma_scope_respected(
    routes: Seq<Ipv6Route>,
    destination: Ipv6Addr,
    id: InterfaceId,
    i: int,
)
    requires
        is_selected6(routes, destination, Some(id), i),
    ensures
        routes[i].interface == id,
{
}

} // verus!
