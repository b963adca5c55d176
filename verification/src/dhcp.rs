//! DHCP server: pool selection and address allocation; the pool configuration, the
//! server's leases and the client leases live in the submodules.
use crate::ipv4::{in_prefix, mask_bits, Ipv4Addr, Ipv4Network};
use crate::mac::MacAddress;
use vstd::prelude::*;

pub mod client;
pub mod config;
pub mod server;

pub use client::{DhcpLease, DhcpLeases};
pub use config::{DhcpConfig, DhcpConfigView};
pub use server::{DhcpBinding, DhcpOffer, DhcpServer, DhcpServerView};

verus! {

/// The broadcast address of a normalized prefix.
pub open spec fn broadcast_of(network: (u32, u8)) -> u32 {
    network.0 | !mask_bits(network.1)
}

/// Whether `address` lies in one of the inclusive `excluded` ranges.
pub open spec fn excluded_by(excluded: Seq<(Ipv4Addr, Ipv4Addr)>, address: u32) -> bool {
    exists|k: int|
        0 <= k < excluded.len() && (#[trigger] excluded[k]).0.0 <= address && address
            <= excluded[k].1.0
}

/// Whether `address` may be offered from `network`: it lies inside the network, is neither
/// the network nor the broadcast address, is not taken, is not the pool's default router,
/// and is not excluded.
pub open spec fn offer_allowed(
    network: (u32, u8),
    used: Seq<Ipv4Addr>,
    router: Option<Ipv4Addr>,
    excluded: Seq<(Ipv4Addr, Ipv4Addr)>,
    address: u32,
) -> bool {
    &&& in_prefix(network, address)
    &&& address != network.0
    &&& address != broadcast_of(network)
    &&& !used.contains(Ipv4Addr(address))
    &&& router != Some(Ipv4Addr(address))
    &&& !excluded_by(excluded, address)
}

/// Whether `r` is the lowest address between the network and broadcast addresses that may
/// be offered, or `None` when there is none.
pub open spec fn lowest_free(
    network: (u32, u8),
    used: Seq<Ipv4Addr>,
    router: Option<Ipv4Addr>,
    excluded: Seq<(Ipv4Addr, Ipv4Addr)>,
    r: Option<Ipv4Addr>,
) -> bool {
    match r {
        Some(a) => {
            &&& network.0 + 1 <= a.0 <= broadcast_of(network) - 1
            &&& offer_allowed(network, used, router, excluded, a.0)
            &&& forall|b: u32|
                network.0 + 1 <= b < a.0 ==> !#[trigger] offer_allowed(
                    network,
                    used,
                    router,
                    excluded,
                    b,
                )
        },
        None => forall|b: u32|
            network.0 + 1 <= b <= broadcast_of(network) - 1 ==> !#[trigger] offer_allowed(
                network,
                used,
                router,
                excluded,
                b,
            ),
    }
}

fn address_taken(used: &[Ipv4Addr], address: Ipv4Addr) -> (r: bool)
    ensures
        r == used@.contains(address),
{
    let mut k: usize = 0;
    while k < used.len()
        invariant
            k <= used@.len(),
            forall|i: int| 0 <= i < k ==> used@[i] != address,
        decreases used@.len() - k,
    {
        if used[k].0 == address.0 {
            assert(used@[k as int] == address);
            return true;
        }
        k = k + 1;
    }
    false
}

/// The largest end of the excluded ranges that contain `address`, if any.
fn excluded_end(excluded: &[(Ipv4Addr, Ipv4Addr)], address: u32) -> (r: Option<u32>)
    ensures
        r is Some <==> excluded_by(excluded@, address),
        r matches Some(end) ==> address <= end && forall|b: u32|
            address <= b <= end ==> #[trigger] excluded_by(excluded@, b),
{
    let mut best: Option<u32> = None;
    let mut k: usize = 0;
    while k < excluded.len()
        invariant
            k <= excluded@.len(),
            best is Some <==> exists|i: int|
                0 <= i < k && (#[trigger] excluded@[i]).0.0 <= address && address
                    <= excluded@[i].1.0,
            best matches Some(end) ==> address <= end && exists|i: int|
                0 <= i < k && (#[trigger] excluded@[i]).0.0 <= address && excluded@[i].1.0 == end,
        decreases excluded@.len() - k,
    {
        let (first, last) = excluded[k];
        if first.0 <= address && address <= last.0 {
            match best {
                Some(end) => {
                    if last.0 > end {
                        best = Some(last.0);
                    }
                },
                None => {
                    best = Some(last.0);
                },
            }
        }
        k = k + 1;
    }
    proof {
        if let Some(end) = best {
            let i = choose|i: int|
                0 <= i < excluded@.len() && (#[trigger] excluded@[i]).0.0 <= address
                    && excluded@[i].1.0 == end;
            assert forall|b: u32| address <= b <= end implies #[trigger] excluded_by(excluded@, b) by {
                assert(excluded@[i].0.0 <= b <= excluded@[i].1.0);
            }
        }
    }
    best
}

fn allowed(
    network: Ipv4Network,
    used: &[Ipv4Addr],
    router: Option<Ipv4Addr>,
    excluded: &[(Ipv4Addr, Ipv4Addr)],
    address: Ipv4Addr,
) -> (r: bool)
    ensures
        r == offer_allowed(network@, used@, router, excluded@, address.0),
{
    network.contains(address) && address.0 != network.address().0 && address.0
        != network.broadcast().0 && !address_taken(used, address) && match router {
        Some(gateway) => gateway.0 != address.0,
        None => true,
    } && excluded_end(excluded, address.0).is_none()
}

/// The address a pool on `network` offers a client. `used` holds the addresses bound or
/// offered to other clients, the device's own addresses, the reservations of other clients
/// and the quarantined ones; `default_router` is the pool's router and `excluded` the
/// inclusive ranges kept out of every pool. A reservation for the client is offered if it
/// is allowed, and otherwise nothing; without one, the client's previous address is offered
/// again if it is allowed; otherwise the lowest allowed address of the network.
pub fn choose_dhcp_address(
    network: Ipv4Network,
    used: &[Ipv4Addr],
    default_router: Option<Ipv4Addr>,
    excluded: &[(Ipv4Addr, Ipv4Addr)],
    reserved: Option<Ipv4Addr>,
    previous: Option<Ipv4Addr>,
) -> (r: Option<Ipv4Addr>)
    ensures
        reserved matches Some(a) ==> r == (if offer_allowed(
            network@,
            used@,
            default_router,
            excluded@,
            a.0,
        ) {
            Some(a)
        } else {
            None::<Ipv4Addr>
        }),
        reserved is None && (previous matches Some(p) && offer_allowed(
            network@,
            used@,
            default_router,
            excluded@,
            p.0,
        )) ==> r == previous,
        reserved is None && !(previous matches Some(p) && offer_allowed(
            network@,
            used@,
            default_router,
            excluded@,
            p.0,
        )) ==> lowest_free(network@, used@, default_router, excluded@, r),
{
    if let Some(address) = reserved {
        if allowed(network, used, default_router, excluded, address) {
            return Some(address);
        }
        return None;
    }
    if let Some(address) = previous {
        if allowed(network, used, default_router, excluded, address) {
            return Some(address);
        }
    }
    let ghost n = network@;
    let first = network.address().0;
    let last = network.broadcast().0.saturating_sub(1);
    let mut candidate: u32 = first.saturating_add(1);
    loop
        invariant
            reserved is None,
            !(previous matches Some(p) && offer_allowed(n, used@, default_router, excluded@, p.0)),
            n == network@,
            first == n.0,
            last as int == if broadcast_of(n) >= 1 {
                broadcast_of(n) - 1
            } else {
                0
            },
            candidate >= first,
            candidate as int >= first + 1 || candidate == u32::MAX,
            forall|b: u32|
                first + 1 <= b < candidate ==> !#[trigger] offer_allowed(
                    n,
                    used@,
                    default_router,
                    excluded@,
                    b,
                ),
        decreases 0x1_0000_0000 - candidate,
    {
        if candidate > last {
            return None;
        }
        match excluded_end(excluded, candidate) {
            Some(end) => {
                if end == u32::MAX {
                    return None;
                }
                candidate = end + 1;
            },
            None => {
                let address = Ipv4Addr(candidate);
                if allowed(network, used, default_router, excluded, address) {
                    return Some(address);
                }
                candidate = candidate + 1;
            },
        }
    }
}

/// The address `choose_dhcp_address` offers.
pub open spec fn dhcp_choice(
    network: (u32, u8),
    used: Seq<Ipv4Addr>,
    router: Option<Ipv4Addr>,
    excluded: Seq<(Ipv4Addr, Ipv4Addr)>,
    reserved: Option<Ipv4Addr>,
    previous: Option<Ipv4Addr>,
) -> Option<Ipv4Addr> {
    if reserved is Some {
        if offer_allowed(network, used, router, excluded, reserved->Some_0.0) {
            reserved
        } else {
            None
        }
    } else if previous is Some && offer_allowed(network, used, router, excluded, previous->Some_0.0) {
        previous
    } else if exists|a: Ipv4Addr| lowest_free(network, used, router, excluded, Some(a)) {
        Some(choose|a: Ipv4Addr| lowest_free(network, used, router, excluded, Some(a)))
    } else {
        None
    }
}

/// What `choose_dhcp_address` returns is `dhcp_choice` of its arguments.
pub proof fn lemma_choice_matches(
    network: (u32, u8),
    used: Seq<Ipv4Addr>,
    router: Option<Ipv4Addr>,
    excluded: Seq<(Ipv4Addr, Ipv4Addr)>,
    reserved: Option<Ipv4Addr>,
    previous: Option<Ipv4Addr>,
    r: Option<Ipv4Addr>,
)
    requires
        reserved matches Some(a) ==> r == (if offer_allowed(network, used, router, excluded, a.0) {
            Some(a)
        } else {
            None::<Ipv4Addr>
        }),
        reserved is None && (previous matches Some(p) && offer_allowed(network, used, router, excluded, p.0))
            ==> r == previous,
        reserved is None && !(previous matches Some(p) && offer_allowed(network, used, router, excluded, p.0))
            ==> lowest_free(network, used, router, excluded, r),
    ensures
        r == dhcp_choice(network, used, router, excluded, reserved, previous),
{
    if reserved is None && !(previous matches Some(p) && offer_allowed(network, used, router, excluded, p.0)) {
        if exists|a: Ipv4Addr| lowest_free(network, used, router, excluded, Some(a)) {
            let c = choose|a: Ipv4Addr| lowest_free(network, used, router, excluded, Some(a));
            match r {
                Some(a) => {
                    if c.0 < a.0 {
                        assert(!offer_allowed(network, used, router, excluded, c.0));
                    } else if a.0 < c.0 {
                        assert(!offer_allowed(network, used, router, excluded, a.0));
                    }
                },
                None => {
                    assert(!offer_allowed(network, used, router, excluded, c.0));
                },
            }
        } else {
            if let Some(a) = r {
                assert(lowest_free(network, used, router, excluded, Some(a)));
            }
        }
    }
}

/// Identifier of a DHCP server pool.
#[derive(Debug, Clone, Copy, PartialEq, Eq, PartialOrd, Ord, Hash, Structural)]
pub struct DhcpPoolId(pub u32);

/// A DHCP server pool: the network it allocates from, an optional reservation for one
/// client, and the options it hands out.
#[derive(Debug, Clone, PartialEq, Eq)]
pub struct DhcpPoolConfig {
    pub lease_seconds: u32,
    pub dns_servers: Vec<Ipv4Addr>,
    pub domain_name: Option<String>,
    pub reserved_address: Option<Ipv4Addr>,
    pub hardware_address: Option<MacAddress>,
    pub name: String,
    pub network: Option<Ipv4Network>,
    pub default_router: Option<Ipv4Addr>,
}

/// Whether a pool serves a client with hardware address `client` on `subnet`: its network
/// contains the subnet address, and any hardware address or reservation it has is the
/// client's.
pub open spec fn pool_serves(pool: DhcpPoolConfig, subnet: Ipv4Addr, client: MacAddress) -> bool {
    &&& pool.network matches Some(n) && in_prefix(n@, subnet.0)
    &&& pool.hardware_address is None || pool.hardware_address == Some(client)
    &&& pool.reserved_address is None || pool.hardware_address == Some(client)
}

/// Whether pool `a` is preferred over pool `b`: pools with a reservation first, then the
/// lower identifier.
pub open spec fn pool_preferred(a: (DhcpPoolId, DhcpPoolConfig), b: (DhcpPoolId, DhcpPoolConfig)) -> bool {
    ||| a.1.reserved_address is Some && b.1.reserved_address is None
    ||| (a.1.reserved_address is Some) == (b.1.reserved_address is Some) && a.0.0 < b.0.0
}

/// Whether pool `i` is the one chosen for the client: it serves the client, no serving pool
/// is preferred over it, and it is preferred over every serving pool listed before it.
pub open spec fn pool_selected(
    pools: Seq<(DhcpPoolId, DhcpPoolConfig)>,
    subnet: Ipv4Addr,
    client: MacAddress,
    i: int,
) -> bool {
    &&& 0 <= i < pools.len()
    &&& pool_serves(pools[i].1, subnet, client)
    &&& forall|j: int|
        0 <= j < pools.len() && pool_serves(#[trigger] pools[j].1, subnet, client) ==> !pool_preferred(
            pools[j],
            pools[i],
        )
    &&& forall|j: int|
        0 <= j < i && pool_serves(#[trigger] pools[j].1, subnet, client) ==> pool_preferred(
            pools[i],
            pools[j],
        )
}

pub(crate) fn same_mac(a: MacAddress, b: MacAddress) -> (r: bool)
    ensures
        r == (a == b),
{
    let r = a.0[0] == b.0[0] && a.0[1] == b.0[1] && a.0[2] == b.0[2] && a.0[3] == b.0[3] && a.0[4]
        == b.0[4] && a.0[5] == b.0[5];
    proof {
        if r {
            assert(a.0@ =~= b.0@);
            vstd::array::axiom_array_ext_equal(a.0, b.0);
        }
    }
    r
}

fn pool_serves_exec(pool: &DhcpPoolConfig, subnet: Ipv4Addr, client: MacAddress) -> (r: bool)
    ensures
        r == pool_serves(*pool, subnet, client),
{
    let network_ok = match pool.network {
        Some(n) => n.contains(subnet),
        None => false,
    };
    let hardware_ok = match pool.hardware_address {
        Some(mac) => same_mac(mac, client),
        None => true,
    };
    let reservation_ok = match pool.reserved_address {
        Some(_) => hardware_ok && pool.hardware_address.is_some(),
        None => true,
    };
    network_ok && hardware_ok && reservation_ok
}

/// The pool that serves a client with hardware address `client` on `subnet` (the relay's
/// address, or the address of the interface the request arrived on): pools with a
/// reservation first, then the lowest identifier.
pub fn select_dhcp_pool(pools: &[(DhcpPoolId, DhcpPoolConfig)], subnet: Ipv4Addr, client: MacAddress) -> (r:
    Option<usize>)
    ensures
        match r {
            Some(i) => pool_selected(pools@, subnet, client, i as int),
            None => forall|j: int|
                0 <= j < pools@.len() ==> !pool_serves(#[trigger] pools@[j].1, subnet, client),
        },
{
    let mut best: Option<usize> = None;
    let mut k: usize = 0;
    while k < pools.len()
        invariant
            k <= pools@.len(),
            match best {
                Some(b) => pool_selected(pools@.take(k as int), subnet, client, b as int),
                None => forall|m: int|
                    0 <= m < k ==> !pool_serves(#[trigger] pools@[m].1, subnet, client),
            },
        decreases pools@.len() - k,
    {
        let ghost old_t = pools@.take(k as int);
        let ghost t = pools@.take(k + 1);
        if pool_serves_exec(&pools[k].1, subnet, client) {
            match best {
                None => {
                    best = Some(k);
                    proof {
                        assert forall|j: int| 0 <= j < t.len() && pool_serves(#[trigger] t[j].1, subnet, client) implies !pool_preferred(t[j], t[k as int]) by {
                            if j < k {
                                assert(t[j] == pools@[j]);
                            }
                        }
                        assert forall|j: int| 0 <= j < k && pool_serves(#[trigger] t[j].1, subnet, client) implies pool_preferred(t[k as int], t[j]) by {
                            assert(t[j] == pools@[j]);
                        }
                    }
                },
                Some(b) => {
                    let a_reserved = pools[k].1.reserved_address.is_some();
                    let b_reserved = pools[b].1.reserved_address.is_some();
                    let better = (a_reserved && !b_reserved) || (a_reserved == b_reserved && pools[k].0.0
                        < pools[b].0.0);
                    if better {
                        best = Some(k);
                    }
                    proof {
                        assert(old_t[b as int] == pools@[b as int]);
                        if better {
                            assert forall|j: int| 0 <= j < t.len() && pool_serves(#[trigger] t[j].1, subnet, client) implies !pool_preferred(t[j], t[k as int]) by {
                                if j < k {
                                    assert(t[j] == old_t[j]);
                                    assert(!pool_preferred(old_t[j], old_t[b as int]));
                                }
                            }
                            assert forall|j: int| 0 <= j < k && pool_serves(#[trigger] t[j].1, subnet, client) implies pool_preferred(t[k as int], t[j]) by {
                                assert(t[j] == old_t[j]);
                                assert(!pool_preferred(old_t[j], old_t[b as int]));
                            }
                        } else {
                            assert forall|j: int| 0 <= j < t.len() && pool_serves(#[trigger] t[j].1, subnet, client) implies !pool_preferred(t[j], t[b as int]) by {
                                if j < k {
                                    assert(t[j] == old_t[j]);
                                }
                            }
                            assert forall|j: int| 0 <= j < b && pool_serves(#[trigger] t[j].1, subnet, client) implies pool_preferred(t[b as int], t[j]) by {
                                assert(t[j] == old_t[j]);
                            }
                        }
                    }
                },
            }
        } else {
            proof {
                if let Some(b) = best {
                    assert forall|j: int| 0 <= j < t.len() && pool_serves(#[trigger] t[j].1, subnet, client) implies !pool_preferred(t[j], t[b as int]) by {
                        if j < k {
                            assert(t[j] == old_t[j]);
                        }
                    }
                    assert forall|j: int| 0 <= j < b && pool_serves(#[trigger] t[j].1, subnet, client) implies pool_preferred(t[b as int], t[j]) by {
                        assert(t[j] == old_t[j]);
                    }
                }
            }
        }
        k = k + 1;
    }
    proof {
        assert(pools@.take(k as int) =~= pools@);
    }
    best
}

/// At most one pool is selected for a client.
pub proof fn lemma_pool_selected_unique(
    pools: Seq<(DhcpPoolId, DhcpPoolConfig)>,
    subnet: Ipv4Addr,
    client: MacAddress,
    i: int,
    j: int,
)
    requires
        pool_selected(pools, subnet, client, i),
        pool_selected(pools, subnet, client, j),
    ensures
        i == j,
{
    if i < j {
        assert(pool_preferred(pools[j], pools[i]));
    } else if j < i {
        assert(pool_preferred(pools[i], pools[j]));
    }
}

/// The options of a pool as a mathematical value.
pub struct PoolView {
    pub lease_seconds: u32,
    pub dns_servers: Seq<Ipv4Addr>,
    pub domain_name: Option<Seq<char>>,
    pub reserved_address: Option<Ipv4Addr>,
    pub hardware_address: Option<MacAddress>,
    pub name: Seq<char>,
    pub network: Option<Ipv4Network>,
    pub default_router: Option<Ipv4Addr>,
}

impl View for DhcpPoolConfig {
    type V = PoolView;

    open spec fn view(&self) -> PoolView {
        PoolView {
            lease_seconds: self.lease_seconds,
            dns_servers: self.dns_servers@,
            domain_name: match self.domain_name {
                Some(d) => Some(d@),
                None => None,
            },
            reserved_address: self.reserved_address,
            hardware_address: self.hardware_address,
            name: self.name@,
            network: self.network,
            default_router: self.default_router,
        }
    }
}

} // verus!
