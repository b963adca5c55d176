//! IPv4 forwarding state of a router: the ARP cache with virtual-time aging, configured
//! static routes, the routing table built from connected, static, DHCP-learned and protocol
//! routes, and the egress decision for a destination.
use crate::device::DeviceError;
use crate::ipv4::{lemma_network_view_injective, mask_bits, Ipv4Addr, Ipv4InterfaceConfig, Ipv4Network};
use crate::keyed::{
    find_sequence, has_key, key_index, keys_unique, kept, lemma_key_index, lemma_kept,
    lemma_put_unique, lemma_sorted_put_read, lemma_sorted_unique, lemma_without_unique, put,
    put_entry, sorted_keys, sorted_put, value_of, without,
};
use crate::mac::MacAddress;
use crate::routing::{is_selected, lemma_selected_unique, InterfaceId, Route, RouteSource, RoutingTable};
use vstd::prelude::*;

verus! {

/// How long a learned ARP mapping stays usable: four hours, in microseconds.
pub const ARP_LIFETIME_US: u64 = 14_400_000_000;

/// A dynamically learned IPv4-to-Ethernet mapping; `learned_at` is in microseconds.
#[derive(Debug, Clone, Copy, PartialEq, Eq)]
pub struct ArpEntry {
    pub address: Ipv4Addr,
    pub mac_address: MacAddress,
    pub interface: InterfaceId,
    pub learned_at: u64,
}

/// ARP mappings in increasing address order.
#[derive(Debug)]
pub struct ArpCache {
    entries: Vec<(u32, ArpEntry)>,
}

impl View for ArpCache {
    type V = Seq<(u32, ArpEntry)>;

    closed spec fn view(&self) -> Seq<(u32, ArpEntry)> {
        self.entries@
    }
}

/// A cache whose entries are keyed by their address, in increasing order.
pub open spec fn arp_wf(s: Seq<(u32, ArpEntry)>) -> bool {
    &&& sorted_keys(s)
    &&& forall|i: int| 0 <= i < s.len() ==> (#[trigger] s[i]).1.address.0 == s[i].0
}

/// Whether an entry is still usable at `now`: less than the lifetime has passed since it
/// was learned (no time has passed when `now` lies before it).
pub open spec fn arp_fresh(e: ArpEntry, now: u64) -> bool {
    (if now >= e.learned_at {
        now - e.learned_at
    } else {
        0
    }) < ARP_LIFETIME_US
}

/// The state and result of learning that `address` has `mac_address` on `interface` at
/// `now`. `present` tells whether the interface exists.
pub open spec fn learn_spec(
    s: Seq<(u32, ArpEntry)>,
    address: Ipv4Addr,
    mac_address: MacAddress,
    interface: InterfaceId,
    present: bool,
    now: u64,
) -> (Seq<(u32, ArpEntry)>, Result<(), DeviceError>) {
    if !present {
        (s, Err(DeviceError::MissingInterface))
    } else {
        (sorted_put(s, address.0, ArpEntry { address, mac_address, interface, learned_at: now }), Ok(()))
    }
}

/// The state and result of looking `address` up at `now`: a usable entry is returned, a
/// stale one is dropped.
pub open spec fn lookup_spec(s: Seq<(u32, ArpEntry)>, address: Ipv4Addr, now: u64) -> (
    Seq<(u32, ArpEntry)>,
    Option<ArpEntry>,
) {
    if !has_key(s, address.0) {
        (s, None)
    } else if arp_fresh(value_of(s, address.0), now) {
        (s, Some(value_of(s, address.0)))
    } else {
        (without(s, address.0), None)
    }
}

/// Whether an entry is usable at `now`, as a predicate on entries.
pub open spec fn fresh_at(now: u64) -> spec_fn(ArpEntry) -> bool {
    |e: ArpEntry| arp_fresh(e, now)
}

impl ArpCache {
    /// An empty cache.
    pub fn new() -> (r: ArpCache)
        ensures
            r@ == Seq::<(u32, ArpEntry)>::empty(),
            arp_wf(r@),
    {
        ArpCache { entries: Vec::new() }
    }

    /// Learn or refresh the mapping of `address`. `present` tells whether `interface`
    /// exists.
    pub fn learn_arp(
        &mut self,
        address: Ipv4Addr,
        mac_address: MacAddress,
        interface: InterfaceId,
        present: bool,
        now: u64,
    ) -> (r: Result<(), DeviceError>)
        requires
            arp_wf(old(self)@),
        ensures
            arp_wf(final(self)@),
            (final(self)@, r) == learn_spec(old(self)@, address, mac_address, interface, present, now),
    {
        if !present {
            return Err(DeviceError::MissingInterface);
        }
        let e = ArpEntry { address, mac_address, interface, learned_at: now };
        let ghost before = self@;
        put_entry(&mut self.entries, address.0, e);
        proof {
            let s = self@;
            lemma_sorted_unique(before);
            if !has_key(before, address.0) {
                crate::keyed::lemma_insert_position_exists(before, address.0);
            }
            assert forall|i: int| 0 <= i < s.len() implies (#[trigger] s[i]).1.address.0 == s[i].0 by {
                if has_key(before, address.0) {
                    let k = key_index(before, address.0);
                    if i != k {
                        assert(s[i] == before[i]);
                    }
                } else {
                    let p = choose|p: int| crate::keyed::insert_at(before, address.0, p);
                    if i < p {
                        assert(s[i] == before[i]);
                    } else if i > p {
                        assert(s[i] == before[i - 1]);
                    }
                }
            }
        }
        Ok(())
    }

    /// The usable mapping of `address` at `now`; a stale mapping is dropped.
    pub fn arp_lookup(&mut self, address: Ipv4Addr, now: u64) -> (r: Option<ArpEntry>)
        requires
            arp_wf(old(self)@),
        ensures
            arp_wf(final(self)@),
            (final(self)@, r) == lookup_spec(old(self)@, address, now),
    {
        let i = match find_sequence(&self.entries, address.0) {
            None => {
                return None;
            },
            Some(i) => i,
        };
        let e = self.entries[i].1;
        let age = now.saturating_sub(e.learned_at);
        if age >= ARP_LIFETIME_US {
            let ghost before = self@;
            proof {
                crate::keyed::lemma_remove_sorted(before, i as int);
            }
            let _ = self.entries.remove(i);
            proof {
                let s = self@;
                assert forall|k: int| 0 <= k < s.len() implies (#[trigger] s[k]).1.address.0 == s[k].0 by {
                    let k2 = if k < i { k } else { k + 1 };
                    assert(s[k] == before[k2]);
                }
            }
            None
        } else {
            Some(e)
        }
    }

    /// Drop every stale mapping and return the usable ones, in address order.
    pub fn arp_entries(&mut self, now: u64) -> (r: Vec<ArpEntry>)
        requires
            arp_wf(old(self)@),
        ensures
            arp_wf(final(self)@),
            final(self)@ == kept(old(self)@, fresh_at(now)),
            r@ == final(self)@.map_values(|e: (u32, ArpEntry)| e.1),
    {
        let ghost before = self@;
        let mut kept_entries: Vec<(u32, ArpEntry)> = Vec::new();
        let mut out: Vec<ArpEntry> = Vec::new();
        let mut i: usize = 0;
        while i < self.entries.len()
            invariant
                self@ == before,
                arp_wf(before),
                i <= before.len(),
                kept_entries@ == kept(before.take(i as int), fresh_at(now)),
                out@ == kept_entries@.map_values(|e: (u32, ArpEntry)| e.1),
            decreases before.len() - i,
        {
            let e = self.entries[i];
            proof {
                assert(before.take(i + 1).drop_last() =~= before.take(i as int));
                assert(before.take(i + 1).last() == e);
            }
            if now.saturating_sub(e.1.learned_at) < ARP_LIFETIME_US {
                kept_entries.push(e);
                out.push(e.1);
                proof {
                    assert(out@ =~= kept_entries@.map_values(|e: (u32, ArpEntry)| e.1));
                }
            }
            i = i + 1;
        }
        proof {
            assert(before.take(before.len() as int) =~= before);
            lemma_kept_sorted(before, fresh_at(now));
            lemma_kept(before, fresh_at(now));
            let s = kept_entries@;
            assert forall|k: int| 0 <= k < s.len() implies (#[trigger] s[k]).1.address.0 == s[k].0 by {
                assert(before.contains(s[k]));
            }
        }
        self.entries = kept_entries;
        out
    }
}

/// Keeping some entries of a sorted sequence keeps it sorted.
pub proof fn lemma_kept_sorted<V>(s: Seq<(u32, V)>, keep: spec_fn(V) -> bool)
    requires
        sorted_keys(s),
    ensures
        sorted_keys(kept(s, keep)),
    decreases s.len(),
{
    if s.len() > 0 {
        let init = s.drop_last();
        assert(sorted_keys(init)) by {
            assert forall|i: int, j: int| 0 <= i < j < init.len() implies #[trigger] init[i].0 < #[trigger] init[j].0 by {
                assert(init[i] == s[i] && init[j] == s[j]);
            }
        }
        lemma_kept_sorted(init, keep);
        lemma_kept(init, keep);
        let rest = kept(init, keep);
        if keep(s.last().1) {
            let out = rest.push(s.last());
            assert forall|i: int, j: int| 0 <= i < j < out.len() implies #[trigger] out[i].0 < #[trigger] out[j].0 by {
                if j == rest.len() {
                    assert(init.contains(rest[i]));
                    let m = choose|m: int| 0 <= m < init.len() && init[m] == rest[i];
                    assert(s[m] == init[m]);
                    assert(s[m].0 < s[s.len() - 1].0);
                } else {
                    assert(out[i] == rest[i] && out[j] == rest[j]);
                }
            }
        }
    }
}

/// Configured static routes, one next hop per destination prefix.
#[derive(Debug)]
pub struct StaticRoutes {
    routes: Vec<(Ipv4Network, Ipv4Addr)>,
}

impl View for StaticRoutes {
    type V = Seq<(Ipv4Network, Ipv4Addr)>;

    closed spec fn view(&self) -> Seq<(Ipv4Network, Ipv4Addr)> {
        self.routes@
    }
}

fn find_static(s: &Vec<(Ipv4Network, Ipv4Addr)>, prefix: Ipv4Network) -> (r: Option<usize>)
    requires
        keys_unique(s@),
    ensures
        match r {
            Some(i) => i < s@.len() && has_key(s@, prefix) && key_index(s@, prefix) == i,
            None => !has_key(s@, prefix),
        },
{
    let mut i: usize = 0;
    while i < s.len()
        invariant
            keys_unique(s@),
            i <= s@.len(),
            forall|j: int| 0 <= j < i ==> #[trigger] s@[j].0 != prefix,
        decreases s@.len() - i,
    {
        let n = s[i].0;
        if n.address().0 == prefix.address().0 && n.prefix_len() == prefix.prefix_len() {
            proof {
                lemma_network_view_injective(n, prefix);
                lemma_key_index(s@, i as int);
            }
            return Some(i);
        }
        i = i + 1;
    }
    None
}

impl StaticRoutes {
    /// No static routes.
    pub fn new() -> (r: StaticRoutes)
        ensures
            r@ == Seq::<(Ipv4Network, Ipv4Addr)>::empty(),
    {
        StaticRoutes { routes: Vec::new() }
    }

    /// The configured routes.
    pub fn routes(&self) -> (r: &[(Ipv4Network, Ipv4Addr)])
        ensures
            r@ == self@,
    {
        self.routes.as_slice()
    }

    /// Add a static route, replacing the next hop of an existing one for `prefix`.
    pub fn set_static_route(&mut self, prefix: Ipv4Network, next_hop: Ipv4Addr)
        requires
            keys_unique(old(self)@),
        ensures
            keys_unique(final(self)@),
            final(self)@ == put(old(self)@, prefix, next_hop),
    {
        proof {
            lemma_put_unique(self@, prefix, next_hop);
        }
        match find_static(&self.routes, prefix) {
            Some(i) => {
                self.routes.set(i, (prefix, next_hop));
            },
            None => {
                self.routes.push((prefix, next_hop));
            },
        }
    }

    /// Remove the static route for `prefix` when its next hop is `next_hop`.
    pub fn remove_static_route(&mut self, prefix: Ipv4Network, next_hop: Ipv4Addr)
        requires
            keys_unique(old(self)@),
        ensures
            keys_unique(final(self)@),
            final(self)@ == if has_key(old(self)@, prefix) && value_of(old(self)@, prefix) == next_hop {
                without(old(self)@, prefix)
            } else {
                old(self)@
            },
    {
        proof {
            lemma_without_unique(self@, prefix);
        }
        if let Some(i) = find_static(&self.routes, prefix) {
            if self.routes[i].1.0 == next_hop.0 {
                let _ = self.routes.remove(i);
            }
        }
    }
}

/// The network with address and prefix length `v`.
pub open spec fn network_with(v: (u32, u8)) -> Ipv4Network {
    choose|n: Ipv4Network| n@ == v
}

/// The connected route of an interface with address configuration `cfg`.
pub open spec fn connected_route(id: InterfaceId, cfg: (u32, u8)) -> Route {
    Route {
        prefix: network_with((cfg.0 & mask_bits(cfg.1), cfg.1)),
        next_hop: None,
        outgoing_interface: Some(id),
        administrative_distance: 0,
        metric: 0,
        source: RouteSource::Connected,
    }
}

/// The connected routes of the interfaces that are up with an address.
pub open spec fn connected_routes(up: Seq<(InterfaceId, Ipv4InterfaceConfig)>) -> Seq<Route> {
    up.map_values(|e: (InterfaceId, Ipv4InterfaceConfig)| connected_route(e.0, e.1@))
}

/// The route a table selects for `address`.
pub open spec fn best_route(routes: Seq<Route>, address: u32) -> Option<Route> {
    if exists|i: int| is_selected(routes, address, i) {
        Some(routes[choose|i: int| is_selected(routes, address, i)])
    } else {
        None
    }
}

/// The static route for `prefix` via `next_hop`, leaving through `interface`.
pub open spec fn static_route(prefix: Ipv4Network, next_hop: Ipv4Addr, interface: Option<InterfaceId>) -> Route {
    Route {
        prefix,
        next_hop: Some(next_hop),
        outgoing_interface: interface,
        administrative_distance: 1,
        metric: 0,
        source: RouteSource::Static,
    }
}

/// The static routes whose next hop a connected route reaches, leaving through that
/// route's interface.
pub open spec fn static_candidates(connected: Seq<Route>, statics: Seq<(Ipv4Network, Ipv4Addr)>) -> Seq<Route>
    decreases statics.len(),
{
    if statics.len() == 0 {
        Seq::empty()
    } else {
        let rest = static_candidates(connected, statics.drop_last());
        let (prefix, next_hop) = statics.last();
        match best_route(connected, next_hop.0) {
            Some(r) => rest.push(static_route(prefix, next_hop, r.outgoing_interface)),
            None => rest,
        }
    }
}

/// The default routes learned by DHCP on up interfaces (`leases` pairs each with its
/// default router), kept when a connected route reaches the router.
pub open spec fn dhcp_candidates(connected: Seq<Route>, leases: Seq<(InterfaceId, Ipv4Addr)>) -> Seq<Route>
    decreases leases.len(),
{
    if leases.len() == 0 {
        Seq::empty()
    } else {
        let rest = dhcp_candidates(connected, leases.drop_last());
        let (interface, router) = leases.last();
        if best_route(connected, router.0) is Some {
            rest.push(static_route(network_with((0, 0)), router, Some(interface)))
        } else {
            rest
        }
    }
}

/// The routing table: connected routes, then reachable static routes, then reachable
/// DHCP default routes, then routes of routing protocols.
pub open spec fn table_spec(
    up: Seq<(InterfaceId, Ipv4InterfaceConfig)>,
    statics: Seq<(Ipv4Network, Ipv4Addr)>,
    leases: Seq<(InterfaceId, Ipv4Addr)>,
    protocol: Seq<Route>,
) -> Seq<Route> {
    let c = connected_routes(up);
    c + static_candidates(c, statics) + dhcp_candidates(c, leases) + protocol
}

/// The route `table` selects for `address`.
fn best(table: &RoutingTable, address: Ipv4Addr) -> (r: Option<Route>)
    ensures
        r == best_route(table@, address.0),
{
    match table.lookup(address) {
        None => {
            proof {
                if exists|i: int| is_selected(table@, address.0, i) {
                    let i = choose|i: int| is_selected(table@, address.0, i);
                    assert(crate::ipv4::in_prefix(table@[i].prefix@, address.0));
                }
            }
            None
        },
        Some(route) => {
            proof {
                let i = choose|i: int| is_selected(table@, address.0, i) && *route == #[trigger] table@[i];
                let k = choose|k: int| is_selected(table@, address.0, k);
                lemma_selected_unique(table@, address.0, i, k);
            }
            Some(*route)
        },
    }
}

/// Build the routing table from the interfaces that are up with an address (`up`), the
/// static routes, the default routers of DHCP leases on up interfaces (`leases`), and the
/// routes of routing protocols.
pub fn build_routing_table(
    up: &[(InterfaceId, Ipv4InterfaceConfig)],
    statics: &StaticRoutes,
    leases: &[(InterfaceId, Ipv4Addr)],
    protocol: &[Route],
) -> (r: RoutingTable)
    ensures
        r@ == table_spec(up@, statics@, leases@, protocol@),
{
    let mut connected = RoutingTable::new();
    let mut table = RoutingTable::new();
    let mut i: usize = 0;
    while i < up.len()
        invariant
            i <= up@.len(),
            connected@ == connected_routes(up@.take(i as int)),
            table@ == connected@,
        decreases up@.len() - i,
    {
        let (id, cfg) = up[i];
        let prefix = match Ipv4Network::new(cfg.address(), cfg.prefix_len()) {
            Ok(n) => n,
            Err(_) => {
                return table;
            },
        };
        let route = Route {
            prefix,
            next_hop: None,
            outgoing_interface: Some(id),
            administrative_distance: 0,
            metric: 0,
            source: RouteSource::Connected,
        };
        proof {
            lemma_network_view_injective(prefix, network_with(prefix@));
            assert(route == connected_route(id, cfg@));
            assert(connected_routes(up@.take(i + 1)) =~= connected_routes(up@.take(i as int)).push(route));
        }
        connected.insert(route);
        table.insert(route);
        i = i + 1;
    }
    assert(up@.take(up@.len() as int) =~= up@);
    let ghost c = connected@;
    let list = statics.routes();
    let mut k: usize = 0;
    while k < list.len()
        invariant
            k <= list@.len(),
            list@ == statics@,
            connected@ == c,
            table@ == c + static_candidates(c, list@.take(k as int)),
        decreases list@.len() - k,
    {
        let (prefix, next_hop) = list[k];
        proof {
            assert(list@.take(k + 1).drop_last() =~= list@.take(k as int));
        }
        match best(&connected, next_hop) {
            Some(r) => {
                table.insert(Route {
                    prefix,
                    next_hop: Some(next_hop),
                    outgoing_interface: r.outgoing_interface,
                    administrative_distance: 1,
                    metric: 0,
                    source: RouteSource::Static,
                });
                assert(table@ =~= c + static_candidates(c, list@.take(k + 1)));
            },
            None => {},
        }
        k = k + 1;
    }
    assert(list@.take(list@.len() as int) =~= list@);
    let ghost cs = table@;
    let default_route = match Ipv4Network::new(Ipv4Addr(0), 0) {
        Ok(n) => n,
        Err(_) => {
            return table;
        },
    };
    proof {
        assert(0u32 & mask_bits(0) == 0) by (bit_vector);
        lemma_network_view_injective(default_route, network_with((0, 0)));
    }
    let mut m: usize = 0;
    while m < leases.len()
        invariant
            m <= leases@.len(),
            connected@ == c,
            default_route == network_with((0, 0)),
            table@ == cs + dhcp_candidates(c, leases@.take(m as int)),
        decreases leases@.len() - m,
    {
        let (interface, router) = leases[m];
        proof {
            assert(leases@.take(m + 1).drop_last() =~= leases@.take(m as int));
        }
        if best(&connected, router).is_some() {
            table.insert(Route {
                prefix: default_route,
                next_hop: Some(router),
                outgoing_interface: Some(interface),
                administrative_distance: 1,
                metric: 0,
                source: RouteSource::Static,
            });
            assert(table@ =~= cs + dhcp_candidates(c, leases@.take(m + 1)));
        }
        m = m + 1;
    }
    assert(leases@.take(leases@.len() as int) =~= leases@);
    let ghost cd = table@;
    let mut n: usize = 0;
    while n < protocol.len()
        invariant
            n <= protocol@.len(),
            table@ == cd + protocol@.take(n as int),
        decreases protocol@.len() - n,
    {
        table.insert(protocol[n]);
        assert(table@ =~= cd + protocol@.take(n + 1));
        n = n + 1;
    }
    assert(protocol@.take(protocol@.len() as int) =~= protocol@);
    assert(table@ =~= table_spec(up@, statics@, leases@, protocol@));
    table
}

/// A fully resolved egress decision.
#[derive(Debug, Clone, Copy, PartialEq, Eq)]
pub struct ResolvedRoute {
    pub interface: InterfaceId,
    pub source_ip: Ipv4Addr,
    pub source_mac: MacAddress,
    pub next_hop: Ipv4Addr,
}

/// Whether `addrs[i]` is the first entry for interface `id`.
pub open spec fn first_entry(addrs: Seq<(InterfaceId, Ipv4Addr, MacAddress)>, id: InterfaceId, i: int) -> bool {
    &&& 0 <= i < addrs.len()
    &&& addrs[i].0 == id
    &&& forall|j: int| 0 <= j < i ==> (#[trigger] addrs[j]).0 != id
}

/// The address and hardware address listed first for interface `id`.
pub open spec fn interface_source(addrs: Seq<(InterfaceId, Ipv4Addr, MacAddress)>, id: InterfaceId) -> Option<
    (Ipv4Addr, MacAddress),
> {
    if exists|i: int| first_entry(addrs, id, i) {
        let i = choose|i: int| first_entry(addrs, id, i);
        Some((addrs[i].1, addrs[i].2))
    } else {
        None
    }
}

/// The egress for `destination`: the selected route's interface, that interface's address
/// and hardware address (`addrs` lists them for the interfaces with an address), and the
/// route's next hop, or the destination itself for a connected route.
pub open spec fn resolve_spec(
    routes: Seq<Route>,
    destination: Ipv4Addr,
    addrs: Seq<(InterfaceId, Ipv4Addr, MacAddress)>,
) -> Option<ResolvedRoute> {
    match best_route(routes, destination.0) {
        None => None,
        Some(r) => match r.outgoing_interface {
            None => None,
            Some(i) => match interface_source(addrs, i) {
                None => None,
                Some((ip, mac)) => Some(
                    ResolvedRoute {
                        interface: i,
                        source_ip: ip,
                        source_mac: mac,
                        next_hop: match r.next_hop {
                            Some(h) => h,
                            None => destination,
                        },
                    },
                ),
            },
        },
    }
}

fn find_source(addrs: &[(InterfaceId, Ipv4Addr, MacAddress)], id: InterfaceId) -> (r: Option<(Ipv4Addr, MacAddress)>)
    ensures
        r == interface_source(addrs@, id),
{
    let mut i: usize = 0;
    while i < addrs.len()
        invariant
            i <= addrs@.len(),
            forall|j: int| 0 <= j < i ==> (#[trigger] addrs@[j]).0 != id,
        decreases addrs@.len() - i,
    {
        let (k, ip, mac) = addrs[i];
        if k.0 == id.0 {
            proof {
                assert(first_entry(addrs@, id, i as int));
                let c = choose|c: int| first_entry(addrs@, id, c);
                if c < i {
                    assert(addrs@[c].0 != id);
                } else if c > i {
                    assert(addrs@[i as int].0 != id);
                }
            }
            return Some((ip, mac));
        }
        i = i + 1;
    }
    None
}

/// Resolve forwarding to `destination` through `table`. `addrs` lists the address and
/// hardware address of each interface that has an address.
pub fn resolve_route(
    table: &RoutingTable,
    destination: Ipv4Addr,
    addrs: &[(InterfaceId, Ipv4Addr, MacAddress)],
) -> (r: Option<ResolvedRoute>)
    ensures
        r == resolve_spec(table@, destination, addrs@),
{
    let route = match best(table, destination) {
        None => {
            return None;
        },
        Some(route) => route,
    };
    let interface = match route.outgoing_interface {
        None => {
            return None;
        },
        Some(i) => i,
    };
    let (source_ip, source_mac) = match find_source(addrs, interface) {
        None => {
            return None;
        },
        Some(s) => s,
    };
    Some(
        ResolvedRoute {
            interface,
            source_ip,
            source_mac,
            next_hop: match route.next_hop {
                Some(h) => h,
                None => destination,
            },
        },
    )
}

/// The egress for a directly connected `destination`: the interface, address and hardware
/// address, when the resolved next hop is the destination itself.
pub fn connected_source(
    table: &RoutingTable,
    destination: Ipv4Addr,
    addrs: &[(InterfaceId, Ipv4Addr, MacAddress)],
) -> (r: Option<(InterfaceId, Ipv4Addr, MacAddress)>)
    ensures
        r == match resolve_spec(table@, destination, addrs@) {
            Some(route) => if route.next_hop == destination {
                Some((route.interface, route.source_ip, route.source_mac))
            } else {
                None
            },
            None => None,
        },
{
    match resolve_route(table, destination, addrs) {
        Some(route) => if route.next_hop.0 == destination.0 {
            Some((route.interface, route.source_ip, route.source_mac))
        } else {
            None
        },
        None => None,
    }
}


/// ARP mappings age on virtual time: a mapping learned at `learned` is returned by a lookup
/// at `now` while less than the lifetime has passed, and is gone afterwards.
pub proof fn lemma_arp_aging(
    s: Seq<(u32, ArpEntry)>,
    address: Ipv4Addr,
    mac_address: MacAddress,
    interface: InterfaceId,
    learned: u64,
    now: u64,
)
    requires
        arp_wf(s),
        learned <= now,
    ensures
        lookup_spec(learn_spec(s, address, mac_address, interface, true, learned).0, address, now).1 == if now
            - learned < ARP_LIFETIME_US {
            Some(ArpEntry { address, mac_address, interface, learned_at: learned })
        } else {
            None
        },
{
    let e = ArpEntry { address, mac_address, interface, learned_at: learned };
    lemma_sorted_put_read(s, address.0, e);
}

/// A static route enters the table only through a connected route that reaches its next
/// hop, and leaves through that route's interface.
pub proof fn lemma_static_next_hop_reachable(connected: Seq<Route>, statics: Seq<(Ipv4Network, Ipv4Addr)>, i: int)
    requires
        0 <= i < static_candidates(connected, statics).len(),
    ensures
        ({
            let r = static_candidates(connected, statics)[i];
            let hop = r.next_hop->0;
            &&& r.next_hop is Some
            &&& best_route(connected, hop.0) is Some
            &&& r.outgoing_interface == best_route(connected, hop.0)->0.outgoing_interface
            &&& r.administrative_distance == 1
            &&& r.source == RouteSource::Static
        }),
    decreases statics.len(),
{
    let rest = static_candidates(connected, statics.drop_last());
    if i < rest.len() {
        lemma_static_next_hop_reachable(connected, statics.drop_last(), i);
        assert(static_candidates(connected, statics)[i] == rest[i]);
    }
}

/// What a read gives back of a write: after a static route is set, its prefix maps to the
/// new next hop.
pub proof fn lemma_static_route_then_read(s: Seq<(Ipv4Network, Ipv4Addr)>, prefix: Ipv4Network, next_hop: Ipv4Addr)
    requires
        keys_unique(s),
    ensures
        has_key(put(s, prefix, next_hop), prefix),
        value_of(put(s, prefix, next_hop), prefix) == next_hop,
{
    crate::keyed::lemma_put_holds(s, prefix, next_hop);
    lemma_put_unique(s, prefix, next_hop);
    crate::keyed::lemma_value_of(put(s, prefix, next_hop), prefix, next_hop);
}

} // verus!
