//! The IPv4 addresses a device uses, configured or leased by DHCP: which interfaces still
//! wait for a lease, which addresses the device owns, the routing table built from them,
//! and DHCP offers answered from an interface's own address.
use crate::dhcp::server::{dhcp_wf, offer_spec};
use crate::dhcp::{DhcpLease, DhcpLeases, DhcpOffer, DhcpPoolConfig, DhcpPoolId, DhcpServer};
use crate::inventory::{device_wf, slot, up_spec, Device, DeviceView};
use crate::ipv4::{Ipv4Addr, Ipv4InterfaceConfig};
use crate::keyed::{has_key, keys_unique, value_of};
use crate::mac::MacAddress;
use crate::network::{
    build_routing_table, connected_route, dhcp_candidates, static_candidates, table_spec, StaticRoutes,
};
use crate::routing::{InterfaceId, Route, RoutingTable};
use vstd::prelude::*;

verus! {

/// The address interface `id` uses, as address and prefix length: its configured address,
/// else the address of its lease when the prefix length is valid.
pub open spec fn ipv4_of(v: DeviceView, l: Seq<(InterfaceId, DhcpLease)>, id: InterfaceId) -> Option<(u32, u8)> {
    match slot(v, id) {
        None => None,
        Some(i) => match v.interfaces[i].1.ipv4 {
            Some(c) => Some(c),
            None => if has_key(l, id) && value_of(l, id).prefix_len <= 32 {
                Some((value_of(l, id).address.0, value_of(l, id).prefix_len))
            } else {
                None
            },
        },
    }
}

/// The addresses of the first `k` interfaces that have one, in interface order.
pub open spec fn addresses_upto(v: DeviceView, l: Seq<(InterfaceId, DhcpLease)>, k: int) -> Seq<Ipv4Addr>
    decreases k,
{
    if k <= 0 {
        Seq::empty()
    } else {
        let rest = addresses_upto(v, l, k - 1);
        match ipv4_of(v, l, InterfaceId(k as u64)) {
            Some(c) => rest.push(Ipv4Addr(c.0)),
            None => rest,
        }
    }
}

/// The up interfaces among the first `k` that have an address, with it, in interface order.
pub open spec fn connected_upto(v: DeviceView, l: Seq<(InterfaceId, DhcpLease)>, k: int) -> Seq<(InterfaceId, (u32, u8))>
    decreases k,
{
    if k <= 0 {
        Seq::empty()
    } else {
        let rest = connected_upto(v, l, k - 1);
        let id = InterfaceId(k as u64);
        match ipv4_of(v, l, id) {
            Some(c) => if up_spec(v, id) {
                rest.push((id, c))
            } else {
                rest
            },
            None => rest,
        }
    }
}

/// The default routers of the leases on up interfaces among the first `k`, in interface
/// order.
pub open spec fn routers_upto(v: DeviceView, l: Seq<(InterfaceId, DhcpLease)>, k: int) -> Seq<(InterfaceId, Ipv4Addr)>
    decreases k,
{
    if k <= 0 {
        Seq::empty()
    } else {
        let rest = routers_upto(v, l, k - 1);
        let id = InterfaceId(k as u64);
        if has_key(l, id) && up_spec(v, id) && value_of(l, id).default_router is Some {
            rest.push((id, value_of(l, id).default_router->0))
        } else {
            rest
        }
    }
}

/// Whether interface slot `j` is a DHCP client that is up and still has no lease.
pub open spec fn waiting_client(v: DeviceView, l: Seq<(InterfaceId, DhcpLease)>, j: int) -> bool {
    &&& v.interfaces[j].1.dhcp_client
    &&& up_spec(v, InterfaceId((j + 1) as u64))
    &&& !has_key(l, InterfaceId((j + 1) as u64))
}

/// The DHCP clients among the first `k` interfaces that are up and have no lease.
pub open spec fn waiting_upto(v: DeviceView, l: Seq<(InterfaceId, DhcpLease)>, k: int) -> Seq<InterfaceId>
    decreases k,
{
    if k <= 0 {
        Seq::empty()
    } else {
        let rest = waiting_upto(v, l, k - 1);
        if waiting_client(v, l, k - 1) {
            rest.push(InterfaceId(k as u64))
        } else {
            rest
        }
    }
}

/// Whether interface `id` is up and uses `address`.
pub open spec fn owns_spec(v: DeviceView, l: Seq<(InterfaceId, DhcpLease)>, id: InterfaceId, address: Ipv4Addr) -> bool {
    &&& up_spec(v, id)
    &&& ipv4_of(v, l, id) matches Some(c) && c.0 == address.0
}

/// The routing table over connected routes given as interfaces with their addresses.
pub open spec fn table_from(
    up: Seq<(InterfaceId, (u32, u8))>,
    statics: Seq<(crate::ipv4::Ipv4Network, Ipv4Addr)>,
    routers: Seq<(InterfaceId, Ipv4Addr)>,
    protocol: Seq<Route>,
) -> Seq<Route> {
    let c = up.map_values(|e: (InterfaceId, (u32, u8))| connected_route(e.0, e.1));
    c + static_candidates(c, statics) + dhcp_candidates(c, routers) + protocol
}

/// Interface addresses with their interfaces, as numbers.
pub open spec fn up_views(s: Seq<(InterfaceId, Ipv4InterfaceConfig)>) -> Seq<(InterfaceId, (u32, u8))> {
    s.map_values(|e: (InterfaceId, Ipv4InterfaceConfig)| (e.0, e.1@))
}

impl Device {
    /// The address interface `id` uses: its configured address, else the one it leased.
    pub fn interface_ipv4(&self, leases: &DhcpLeases, id: InterfaceId) -> (r: Option<Ipv4InterfaceConfig>)
        requires
            device_wf(self@),
            keys_unique(leases@),
        ensures
            match r {
                Some(c) => ipv4_of(self@, leases@, id) == Some(c@),
                None => ipv4_of(self@, leases@, id) is None,
            },
    {
        let config = match self.interface(id) {
            None => {
                return None;
            },
            Some((_, c)) => c,
        };
        match config.ipv4 {
            Some(c) => Some(c),
            None => match leases.dhcp_lease(id) {
                None => None,
                Some(lease) => match Ipv4InterfaceConfig::new(lease.address, lease.prefix_len) {
                    Ok(c) => Some(c),
                    Err(_) => None,
                },
            },
        }
    }

    /// The addresses of every interface that has one, in interface order.
    fn interface_addresses(&self, leases: &DhcpLeases) -> (r: Vec<Ipv4Addr>)
        requires
            device_wf(self@),
            keys_unique(leases@),
        ensures
            r@ == addresses_upto(self@, leases@, self@.interfaces.len() as int),
    {
        let ghost v = self@;
        let n = self.interface_count();
        let mut out: Vec<Ipv4Addr> = Vec::new();
        let mut k: usize = 0;
        while k < n
            invariant
                v == self@,
                device_wf(v),
                keys_unique(leases@),
                n == v.interfaces.len(),
                k <= n,
                out@ == addresses_upto(v, leases@, k as int),
            decreases n - k,
        {
            match self.interface_ipv4(leases, InterfaceId((k + 1) as u64)) {
                Some(c) => out.push(c.address()),
                None => {},
            }
            k = k + 1;
        }
        out
    }

    /// Whether interface `id` is up and uses `address`.
    pub fn owns_ipv4(&self, leases: &DhcpLeases, id: InterfaceId, address: Ipv4Addr) -> (r: bool)
        requires
            device_wf(self@),
            keys_unique(leases@),
        ensures
            r == owns_spec(self@, leases@, id, address),
    {
        self.protocol_up(id) && match self.interface_ipv4(leases, id) {
            Some(c) => c.address().0 == address.0,
            None => false,
        }
    }

    /// Whether some up interface uses `address`.
    pub fn owns_any_ipv4(&self, leases: &DhcpLeases, address: Ipv4Addr) -> (r: bool)
        requires
            device_wf(self@),
            keys_unique(leases@),
        ensures
            r == exists|j: int| 0 <= j < self@.interfaces.len() && #[trigger] owns_spec(self@, leases@, InterfaceId((j + 1) as u64), address),
    {
        let ghost v = self@;
        let n = self.interface_count();
        let mut k: usize = 0;
        while k < n
            invariant
                v == self@,
                device_wf(v),
                keys_unique(leases@),
                n == v.interfaces.len(),
                k <= n,
                forall|j: int| 0 <= j < k ==> !#[trigger] owns_spec(v, leases@, InterfaceId((j + 1) as u64), address),
            decreases n - k,
        {
            if self.owns_ipv4(leases, InterfaceId((k + 1) as u64), address) {
                assert(owns_spec(v, leases@, InterfaceId(((k as int) + 1) as u64), address));
                return true;
            }
            k = k + 1;
        }
        false
    }

    /// The DHCP client interfaces that are up and have no lease yet, in interface order.
    pub fn dhcp_client_interfaces(&self, leases: &DhcpLeases) -> (r: Vec<InterfaceId>)
        requires
            device_wf(self@),
            keys_unique(leases@),
        ensures
            r@ == waiting_upto(self@, leases@, self@.interfaces.len() as int),
    {
        let ghost v = self@;
        let n = self.interface_count();
        let mut out: Vec<InterfaceId> = Vec::new();
        let mut k: usize = 0;
        while k < n
            invariant
                v == self@,
                device_wf(v),
                keys_unique(leases@),
                n == v.interfaces.len(),
                k <= n,
                out@ == waiting_upto(v, leases@, k as int),
            decreases n - k,
        {
            let id = InterfaceId((k + 1) as u64);
            let client = self.interface(id).unwrap().1.dhcp_client;
            if client && self.protocol_up(id) && leases.dhcp_lease(id).is_none() {
                out.push(id);
            }
            k = k + 1;
        }
        out
    }

    /// Whether some DHCP client interface still has no lease, whether or not it is up.
    pub fn has_pending_dhcp_client(&self, leases: &DhcpLeases) -> (r: bool)
        requires
            device_wf(self@),
            keys_unique(leases@),
        ensures
            r == exists|j: int|
                0 <= j < self@.interfaces.len() && (#[trigger] self@.interfaces[j]).1.dhcp_client && !has_key(
                    leases@,
                    InterfaceId((j + 1) as u64),
                ),
    {
        let ghost v = self@;
        let n = self.interface_count();
        let mut k: usize = 0;
        while k < n
            invariant
                v == self@,
                device_wf(v),
                keys_unique(leases@),
                n == v.interfaces.len(),
                k <= n,
                forall|j: int| 0 <= j < k ==> !((#[trigger] v.interfaces[j]).1.dhcp_client && !has_key(leases@, InterfaceId((j + 1) as u64))),
            decreases n - k,
        {
            let id = InterfaceId((k + 1) as u64);
            if self.interface(id).unwrap().1.dhcp_client && leases.dhcp_lease(id).is_none() {
                return true;
            }
            k = k + 1;
        }
        false
    }

    /// The routing table: connected routes of the up interfaces that have an address,
    /// reachable static routes, the default routes leased on up interfaces, and the routes
    /// of routing protocols, in that order.
    pub fn routing_table(&self, leases: &DhcpLeases, statics: &StaticRoutes, protocol: &[Route]) -> (r: RoutingTable)
        requires
            device_wf(self@),
            keys_unique(leases@),
        ensures
            r@ == table_from(
                connected_upto(self@, leases@, self@.interfaces.len() as int),
                statics@,
                routers_upto(self@, leases@, self@.interfaces.len() as int),
                protocol@,
            ),
    {
        let ghost v = self@;
        let n = self.interface_count();
        let mut up: Vec<(InterfaceId, Ipv4InterfaceConfig)> = Vec::new();
        let mut routers: Vec<(InterfaceId, Ipv4Addr)> = Vec::new();
        let mut k: usize = 0;
        while k < n
            invariant
                v == self@,
                device_wf(v),
                keys_unique(leases@),
                n == v.interfaces.len(),
                k <= n,
                up_views(up@) == connected_upto(v, leases@, k as int),
                routers@ == routers_upto(v, leases@, k as int),
            decreases n - k,
        {
            let id = InterfaceId((k + 1) as u64);
            let is_up = self.protocol_up(id);
            let ghost prev = up@;
            if is_up {
                match self.interface_ipv4(leases, id) {
                    Some(c) => {
                        up.push((id, c));
                        proof {
                            assert(up_views(up@) =~= up_views(prev).push((id, c@)));
                        }
                    },
                    None => {},
                }
                match leases.dhcp_lease(id) {
                    Some(lease) => match lease.default_router {
                        Some(router) => routers.push((id, router)),
                        None => {},
                    },
                    None => {},
                }
            }
            k = k + 1;
        }
        let r = build_routing_table(up.as_slice(), statics, routers.as_slice(), protocol);
        proof {
            assert(crate::network::connected_routes(up@) =~= up_views(up@).map_values(
                |e: (InterfaceId, (u32, u8))| connected_route(e.0, e.1),
            ));
        }
        r
    }

    /// Offer a lease to `client_mac` on the subnet of interface `id`, answering from the
    /// interface's own address; nothing without one. `pools` and `excluded` are the DHCP
    /// configuration.
    pub fn offer_dhcp(
        &self,
        server: &mut DhcpServer,
        pools: &[(DhcpPoolId, DhcpPoolConfig)],
        excluded: &[(Ipv4Addr, Ipv4Addr)],
        leases: &DhcpLeases,
        id: InterfaceId,
        client_mac: MacAddress,
        now: u64,
    ) -> (r: Option<DhcpOffer>)
        requires
            device_wf(self@),
            keys_unique(leases@),
            dhcp_wf(old(server)@),
        ensures
            dhcp_wf(final(server)@),
            match ipv4_of(self@, leases@, id) {
                None => r is None && final(server)@ == old(server)@,
                Some(c) => (final(server)@, r) == offer_spec(
                    old(server)@,
                    pools@,
                    excluded@,
                    addresses_upto(self@, leases@, self@.interfaces.len() as int),
                    Ipv4Addr(c.0),
                    client_mac,
                    Ipv4Addr(c.0),
                    now,
                ),
            },
    {
        let subnet = match self.interface_ipv4(leases, id) {
            None => {
                return None;
            },
            Some(c) => c.address(),
        };
        self.offer_dhcp_on_network(server, pools, excluded, leases, id, client_mac, subnet, now)
    }

    /// Offer a lease to `client_mac` from the pool for `subnet` (a relay's address, or the
    /// attached subnet), answering from the address of interface `id`; nothing without one.
    pub fn offer_dhcp_on_network(
        &self,
        server: &mut DhcpServer,
        pools: &[(DhcpPoolId, DhcpPoolConfig)],
        excluded: &[(Ipv4Addr, Ipv4Addr)],
        leases: &DhcpLeases,
        id: InterfaceId,
        client_mac: MacAddress,
        subnet: Ipv4Addr,
        now: u64,
    ) -> (r: Option<DhcpOffer>)
        requires
            device_wf(self@),
            keys_unique(leases@),
            dhcp_wf(old(server)@),
        ensures
            dhcp_wf(final(server)@),
            match ipv4_of(self@, leases@, id) {
                None => r is None && final(server)@ == old(server)@,
                Some(c) => (final(server)@, r) == offer_spec(
                    old(server)@,
                    pools@,
                    excluded@,
                    addresses_upto(self@, leases@, self@.interfaces.len() as int),
                    Ipv4Addr(c.0),
                    client_mac,
                    subnet,
                    now,
                ),
            },
    {
        let server_id = match self.interface_ipv4(leases, id) {
            None => {
                return None;
            },
            Some(c) => c.address(),
        };
        let addresses = self.interface_addresses(leases);
        server.offer_dhcp_on_network(pools, excluded, addresses.as_slice(), server_id, client_mac, subnet, now)
    }
}

} // verus!
