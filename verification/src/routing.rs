//! Route candidates and deterministic longest-prefix route selection.
use crate::ipv4::{in_prefix, Ipv4Addr, Ipv4Network};
use vstd::prelude::*;

verus! {

/// Identifier of an interface within one device.
#[derive(Debug, Clone, Copy, PartialEq, Eq, PartialOrd, Ord, Hash, Structural)]
pub struct InterfaceId(pub u64);

/// Source code and future protocol ownership of a route.
#[derive(Debug, Clone, Copy, PartialEq, Eq, PartialOrd, Ord, Structural)]
pub enum RouteSource {
    Connected,
    Static,
    Ospf,
    OspfInterArea,
    OspfExternal1,
    OspfExternal2,
    Rip,
    Bgp,
}

/// One route candidate.
#[derive(Debug, Clone, Copy, PartialEq, Eq, PartialOrd, Ord)]
pub struct Route {
    /// Destination prefix.
    pub prefix: Ipv4Network,
    /// Next hop, absent for directly connected routes.
    pub next_hop: Option<Ipv4Addr>,
    /// Egress interface when resolved.
    pub outgoing_interface: Option<InterfaceId>,
    /// Source preference; lower values win after prefix length.
    pub administrative_distance: u8,
    /// Protocol-specific path cost.
    pub metric: u32,
    /// Owning route source.
    pub source: RouteSource,
}

/// Deterministic route collection with longest-prefix selection.
#[derive(Debug, Clone, PartialEq, Eq)]
pub struct RoutingTable(Vec<Route>);

impl View for RoutingTable {
    type V = Seq<Route>;

    closed spec fn view(&self) -> Seq<Route> {
        self.0@
    }
}

/// Whether route `a` is preferred over route `b`: a longer prefix, then a lower
/// administrative distance, then a lower metric.
pub open spec fn preferred(a: Route, b: Route) -> bool {
    ||| a.prefix@.1 > b.prefix@.1
    ||| a.prefix@.1 == b.prefix@.1 && a.administrative_distance < b.administrative_distance
    ||| a.prefix@.1 == b.prefix@.1 && a.administrative_distance == b.administrative_distance
        && a.metric < b.metric
}

/// Whether `routes[i]` is the selected route for `address`: it matches, no matching route
/// is preferred over it, and every earlier matching route is less preferred.
pub open spec fn is_selected(routes: Seq<Route>, address: u32, i: int) -> bool {
    &&& 0 <= i < routes.len()
    &&& in_prefix(routes[i].prefix@, address)
    &&& forall|j: int|
        0 <= j < routes.len() && in_prefix(routes[j].prefix@, address) ==> !preferred(
            #[trigger] routes[j],
            routes[i],
        )
    &&& forall|j: int|
        0 <= j < i && in_prefix(routes[j].prefix@, address) ==> preferred(
            routes[i],
            #[trigger] routes[j],
        )
}

impl RoutingTable {
    /// An empty table.
    pub fn new() -> (t: RoutingTable)
        ensures
            t@ == Seq::<Route>::empty(),
    {
        RoutingTable(Vec::new())
    }

    /// Add one route candidate.
    pub fn insert(&mut self, route: Route)
        ensures
            final(self)@ == old(self)@.push(route),
    {
        self.0.push(route);
    }

    /// Routes in deterministic insertion order.
    pub fn routes(&self) -> (r: &[Route])
        ensures
            r@ == self@,
    {
        self.0.as_slice()
    }

    fn selected_index(&self, address: Ipv4Addr) -> (r: Option<usize>)
        ensures
            r is None <==> forall|i: int|
                0 <= i < self@.len() ==> !in_prefix(#[trigger] self@[i].prefix@, address.0),
            r matches Some(i) ==> is_selected(self@, address.0, i as int),
    {
        let mut best: Option<usize> = None;
        let mut i: usize = 0;
        while i < self.0.len()
            invariant
                i <= self@.len(),
                self@ == self.0@,
                best is None ==> forall|j: int|
                    0 <= j < i ==> !in_prefix(#[trigger] self@[j].prefix@, address.0),
                best matches Some(b) ==> {
                    &&& b < i
                    &&& in_prefix(self@[b as int].prefix@, address.0)
                    &&& forall|j: int|
                        0 <= j < i && in_prefix(self@[j].prefix@, address.0) ==> !preferred(
                            #[trigger] self@[j],
                            self@[b as int],
                        )
                    &&& forall|j: int|
                        0 <= j < b && in_prefix(self@[j].prefix@, address.0) ==> preferred(
                            self@[b as int],
                            #[trigger] self@[j],
                        )
                },
            decreases self@.len() - i,
        {
            let route = &self.0[i];
            if route.prefix.contains(address) {
                match best {
                    None => {
                        best = Some(i);
                    },
                    Some(b) => {
                        let current = &self.0[b];
                        let len_r = route.prefix.prefix_len();
                        let len_c = current.prefix.prefix_len();
                        let better = len_r > len_c || (len_r == len_c && (
                        route.administrative_distance < current.administrative_distance || (
                        route.administrative_distance == current.administrative_distance
                            && route.metric < current.metric)));
                        if better {
                            best = Some(i);
                        }
                    },
                }
            }
            i = i + 1;
        }
        best
    }

    /// Select longest prefix, then lowest distance and metric; the earliest such route wins.
    pub fn lookup(&self, address: Ipv4Addr) -> (r: Option<&Route>)
        ensures
            r is None <==> forall|i: int|
                0 <= i < self@.len() ==> !in_prefix(#[trigger] self@[i].prefix@, address.0),
            r matches Some(route) ==> exists|i: int|
                is_selected(self@, address.0, i) && *route == #[trigger] self@[i],
    {
        match self.selected_index(address) {
            Some(i) => Some(&self.0[i]),
            None => None,
        }
    }
}

impl Default for RoutingTable {
    fn default() -> (t: RoutingTable)
        ensures
            t@ == Seq::<Route>::empty(),
    {
        RoutingTable::new()
    }
}

/// At most one route is the selected route for an address.
pub proof fn lemma_selected_unique(routes: Seq<Route>, address: u32, i: int, j: int)
    requires
        is_selected(routes, address, i),
        is_selected(routes, address, j),
    ensures
        i == j,
{
    if i < j {
        assert(preferred(routes[j], routes[i]));
    } else if j < i {
        assert(preferred(routes[i], routes[j]));
    }
}

/// No matching route has a longer prefix than the selected one.
pub proof fn lemma_selected_is_longest(routes: Seq<Route>, address: u32, i: int, j: int)
    requires
        is_selected(routes, address, i),
        0 <= j < routes.len(),
        in_prefix(routes[j].prefix@, address),
    ensures
        routes[j].prefix@.1 <= routes[i].prefix@.1,
{
    assert(!preferred(routes[j], routes[i]));
}

} // verus!
