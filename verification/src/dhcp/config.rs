//! DHCP pool configuration: pools numbered in creation order, their validated options, and
//! address ranges excluded from every pool.
use super::server::{
    dhcp_wf, find_address, find_pool, forget_pool_spec, forget_range_spec, put_address,
    DhcpServer,
};
use super::{broadcast_of, DhcpPoolConfig, DhcpPoolId, PoolView};
use crate::device::{address_assignable, valid_address, DeviceError, DeviceType};
use crate::inventory::{routing, Device};
use crate::ipv4::{in_prefix, Ipv4Addr, Ipv4Network};
use crate::keyed::{has_key, key_index, keys_unique, lemma_key_index, put, value_of};
use vstd::prelude::*;
use vstd::string::StringSliceAdditionalSpecFns;
use vstd::utf8::encode_utf8;

verus! {

/// Largest number of DHCP pools.
pub const MAX_DHCP_POOLS: usize = 1024;

/// Largest number of excluded address ranges.
pub const MAX_DHCP_EXCLUSIONS: usize = 4096;

/// Longest lease a pool may hand out, in seconds: one year.
pub const MAX_LEASE_SECONDS: u32 = 31_536_000;

/// Whether a pool name may be used: 1 to 32 bytes, each a printable non-space ASCII
/// character.
pub open spec fn pool_name_ok(bytes: Seq<u8>) -> bool {
    &&& 1 <= bytes.len() <= 32
    &&& forall|i: int| 0 <= i < bytes.len() ==> 0x21 <= #[trigger] bytes[i] <= 0x7e
}

/// The lower-case of an ASCII letter; other bytes unchanged.
pub open spec fn ascii_lower(b: u8) -> u8 {
    if 65 <= b <= 90 {
        (b + 32) as u8
    } else {
        b
    }
}

/// Whether two byte strings are equal ignoring ASCII case.
pub open spec fn eq_ignore_case(a: Seq<u8>, b: Seq<u8>) -> bool {
    &&& a.len() == b.len()
    &&& forall|i: int| 0 <= i < a.len() ==> ascii_lower(#[trigger] a[i]) == ascii_lower(b[i])
}

/// Whether a domain name may be handed out: 1 to 253 ASCII letters, digits, dots and
/// hyphens.
pub open spec fn domain_ok(bytes: Seq<u8>) -> bool {
    &&& 1 <= bytes.len() <= 253
    &&& forall|i: int|
        0 <= i < bytes.len() ==> (48 <= #[trigger] bytes[i] <= 57 || 65 <= bytes[i] <= 90 || 97
            <= bytes[i] <= 122 || bytes[i] == 46 || bytes[i] == 45)
}

/// Whether `pool` may replace a pool named `name`: same name, a lease of one minute to one
/// year in whole minutes, at most eight assignable DNS servers, an assignable router, a valid
/// domain name, a network no longer than /30, a reservation inside the network that is
/// neither its network nor its broadcast address, and a unicast nonzero hardware address.
pub open spec fn pool_valid(name: Seq<char>, pool: PoolView) -> bool {
    &&& pool.name == name
    &&& 60 <= pool.lease_seconds <= MAX_LEASE_SECONDS
    &&& pool.lease_seconds % 60 == 0
    &&& pool.dns_servers.len() <= 8
    &&& forall|i: int| 0 <= i < pool.dns_servers.len() ==> address_assignable(#[trigger] pool.dns_servers[i])
    &&& pool.default_router matches Some(r) ==> address_assignable(r)
    &&& pool.domain_name matches Some(d) ==> domain_ok(encode_utf8(d))
    &&& pool.network matches Some(n) ==> n@.1 <= 30
    &&& pool.reserved_address matches Some(a) ==> (pool.network matches Some(n) && in_prefix(n@, a.0)
        && a.0 != n@.0 && a.0 != broadcast_of(n@))
    &&& pool.hardware_address matches Some(m) ==> (m.0[0] & 1 == 0 && m.0@ != seq![0u8, 0, 0, 0, 0, 0])
}

/// The DHCP server configuration: pools numbered from 1 in creation order, and excluded
/// address ranges keyed by their first address.
#[derive(Debug)]
pub struct DhcpConfig {
    pools: Vec<(DhcpPoolId, DhcpPoolConfig)>,
    excluded: Vec<(Ipv4Addr, Ipv4Addr)>,
}

/// A DHCP configuration as a mathematical value.
#[verifier::ext_equal]
pub struct DhcpConfigView {
    pub pools: Seq<(DhcpPoolId, PoolView)>,
    pub excluded: Seq<(Ipv4Addr, Ipv4Addr)>,
}

/// Pools as mathematical values.
pub open spec fn pools_view(pools: Seq<(DhcpPoolId, DhcpPoolConfig)>) -> Seq<(DhcpPoolId, PoolView)> {
    pools.map_values(|e: (DhcpPoolId, DhcpPoolConfig)| (e.0, e.1@))
}

impl View for DhcpConfig {
    type V = DhcpConfigView;

    closed spec fn view(&self) -> DhcpConfigView {
        DhcpConfigView { pools: pools_view(self.pools@), excluded: self.excluded@ }
    }
}

/// A configuration whose pools are numbered 1, 2, ... in order, within the pool limit, and
/// whose excluded ranges have distinct first addresses.
pub open spec fn dhcp_config_wf(v: DhcpConfigView) -> bool {
    &&& v.pools.len() <= MAX_DHCP_POOLS
    &&& forall|i: int| 0 <= i < v.pools.len() ==> (#[trigger] v.pools[i]).0.0 == i + 1
    &&& keys_unique(v.excluded)
}

/// Whether pool `i` is named `name`, ignoring ASCII case.
pub open spec fn pool_named(pools: Seq<(DhcpPoolId, PoolView)>, name: Seq<u8>, i: int) -> bool {
    &&& 0 <= i < pools.len()
    &&& eq_ignore_case(encode_utf8(pools[i].1.name), name)
}

/// The options of a newly created pool.
pub open spec fn new_pool(name: Seq<char>) -> PoolView {
    PoolView {
        lease_seconds: 3600,
        dns_servers: Seq::empty(),
        domain_name: None,
        reserved_address: None,
        hardware_address: None,
        name,
        network: None,
        default_router: None,
    }
}

/// The configuration and result of selecting the pool named `name` (text `chars`, bytes
/// `bytes`), creating it when no pool has that name ignoring ASCII case. `supported` tells
/// whether the device routes.
pub open spec fn ensure_pool_spec(v: DhcpConfigView, chars: Seq<char>, bytes: Seq<u8>, supported: bool) -> (
    DhcpConfigView,
    Result<DhcpPoolId, DeviceError>,
) {
    if !supported {
        (v, Err(DeviceError::DhcpUnsupported))
    } else if !pool_name_ok(bytes) {
        (v, Err(DeviceError::InvalidDhcpPoolName))
    } else if exists|i: int| pool_named(v.pools, bytes, i) {
        let i = choose|i: int| pool_named(v.pools, bytes, i) && forall|j: int| 0 <= j < i ==> !#[trigger] pool_named(v.pools, bytes, j);
        (v, Ok(v.pools[i].0))
    } else if v.pools.len() >= MAX_DHCP_POOLS {
        (v, Err(DeviceError::InvalidDhcpNetwork))
    } else {
        let id = DhcpPoolId((v.pools.len() + 1) as u32);
        (DhcpConfigView { pools: v.pools.push((id, new_pool(chars))), ..v }, Ok(id))
    }
}

/// The configuration and result of replacing pool `id`'s options with `pool`.
pub open spec fn update_pool_spec(v: DhcpConfigView, id: DhcpPoolId, pool: PoolView) -> (
    DhcpConfigView,
    Result<(), DeviceError>,
) {
    if !has_key(v.pools, id) {
        (v, Err(DeviceError::MissingDhcpPool))
    } else if !pool_valid(value_of(v.pools, id).name, pool) {
        (v, Err(DeviceError::InvalidDhcpNetwork))
    } else {
        (DhcpConfigView { pools: v.pools.update(key_index(v.pools, id), (id, pool)), ..v }, Ok(()))
    }
}

/// The configuration and result of excluding `first..=last` from every pool. `supported`
/// tells whether the device may serve DHCP.
pub open spec fn exclude_spec(v: DhcpConfigView, first: Ipv4Addr, last: Ipv4Addr, supported: bool) -> (
    DhcpConfigView,
    Result<(), DeviceError>,
) {
    if !supported {
        (v, Err(DeviceError::DhcpUnsupported))
    } else if first.0 > last.0 || !address_assignable(first) || !address_assignable(last) || (
    v.excluded.len() >= MAX_DHCP_EXCLUSIONS && !has_key(v.excluded, first)) {
        (v, Err(DeviceError::InvalidDhcpNetwork))
    } else {
        (DhcpConfigView { excluded: put(v.excluded, first, last), ..v }, Ok(()))
    }
}

/// The configuration and result of giving pool `id` the network `network`.
pub open spec fn set_network_spec(v: DhcpConfigView, id: DhcpPoolId, network: Ipv4Network) -> (
    DhcpConfigView,
    Result<(), DeviceError>,
) {
    if network@.1 > 30 {
        (v, Err(DeviceError::InvalidDhcpNetwork))
    } else if !has_key(v.pools, id) {
        (v, Err(DeviceError::MissingDhcpPool))
    } else {
        update_pool_spec(v, id, PoolView { network: Some(network), ..value_of(v.pools, id) })
    }
}

/// The configuration and result of giving pool `id` the default router `router`.
pub open spec fn set_router_spec(v: DhcpConfigView, id: DhcpPoolId, router: Ipv4Addr) -> (
    DhcpConfigView,
    Result<(), DeviceError>,
) {
    if !has_key(v.pools, id) {
        (v, Err(DeviceError::MissingDhcpPool))
    } else {
        update_pool_spec(v, id, PoolView { default_router: Some(router), ..value_of(v.pools, id) })
    }
}

fn bytes_eq_ignore_case(a: &[u8], b: &[u8]) -> (r: bool)
    ensures
        r == eq_ignore_case(a@, b@),
{
    if a.len() != b.len() {
        return false;
    }
    let mut i: usize = 0;
    while i < a.len()
        invariant
            a@.len() == b@.len(),
            i <= a@.len(),
            forall|j: int| 0 <= j < i ==> ascii_lower(#[trigger] a@[j]) == ascii_lower(b@[j]),
        decreases a@.len() - i,
    {
        let x = if 65 <= a[i] && a[i] <= 90 {
            a[i] + 32
        } else {
            a[i]
        };
        let y = if 65 <= b[i] && b[i] <= 90 {
            b[i] + 32
        } else {
            b[i]
        };
        if x != y {
            assert(ascii_lower(a@[i as int]) != ascii_lower(b@[i as int]));
            return false;
        }
        i = i + 1;
    }
    true
}

fn domain_is_ok(bytes: &[u8]) -> (r: bool)
    ensures
        r == domain_ok(bytes@),
{
    if bytes.len() == 0 || bytes.len() > 253 {
        return false;
    }
    let mut i: usize = 0;
    while i < bytes.len()
        invariant
            i <= bytes@.len(),
            forall|j: int|
                0 <= j < i ==> (48 <= #[trigger] bytes@[j] <= 57 || 65 <= bytes@[j] <= 90 || 97
                    <= bytes@[j] <= 122 || bytes@[j] == 46 || bytes@[j] == 45),
        decreases bytes@.len() - i,
    {
        let b = bytes[i];
        if !((48 <= b && b <= 57) || (65 <= b && b <= 90) || (97 <= b && b <= 122) || b == 46 || b
            == 45) {
            return false;
        }
        i = i + 1;
    }
    true
}

fn pool_is_valid(name: &String, pool: &DhcpPoolConfig) -> (r: bool)
    ensures
        r == pool_valid(name@, pool@),
{
    if pool.name != *name {
        return false;
    }
    if pool.lease_seconds < 60 || pool.lease_seconds > MAX_LEASE_SECONDS || pool.lease_seconds % 60
        != 0 {
        return false;
    }
    if pool.dns_servers.len() > 8 {
        return false;
    }
    let mut i: usize = 0;
    while i < pool.dns_servers.len()
        invariant
            i <= pool.dns_servers@.len(),
            forall|j: int| 0 <= j < i ==> address_assignable(#[trigger] pool.dns_servers@[j]),
        decreases pool.dns_servers@.len() - i,
    {
        if !valid_address(pool.dns_servers[i]) {
            return false;
        }
        i = i + 1;
    }
    if let Some(router) = pool.default_router {
        if !valid_address(router) {
            return false;
        }
    }
    if let Some(domain) = &pool.domain_name {
        let text = domain.as_str();
        if !domain_is_ok(text.as_bytes()) {
            return false;
        }
    }
    if let Some(network) = pool.network {
        if network.prefix_len() > 30 {
            return false;
        }
    }
    if let Some(address) = pool.reserved_address {
        match pool.network {
            Some(network) => {
                if !network.contains(address) || address.0 == network.address().0 || address.0
                    == network.broadcast().0 {
                    return false;
                }
            },
            None => {
                return false;
            },
        }
    }
    if let Some(mac) = pool.hardware_address {
        let zero = mac.0[0] == 0 && mac.0[1] == 0 && mac.0[2] == 0 && mac.0[3] == 0 && mac.0[4] == 0
            && mac.0[5] == 0;
        if zero {
            assert(mac.0@ =~= seq![0u8, 0, 0, 0, 0, 0]);
        } else {
            assert(mac.0@ != seq![0u8, 0, 0, 0, 0, 0]) by {
                if mac.0@ == seq![0u8, 0, 0, 0, 0, 0] {
                    assert(mac.0@[0] == 0 && mac.0@[1] == 0 && mac.0@[2] == 0);
                    assert(mac.0@[3] == 0 && mac.0@[4] == 0 && mac.0@[5] == 0);
                }
            }
        }
        if mac.0[0] & 1 != 0 || zero {
            return false;
        }
    }
    true
}

/// Pool identifiers in a well-formed configuration are unique.
proof fn lemma_pool_ids_unique(pools: Seq<(DhcpPoolId, DhcpPoolConfig)>)
    requires
        dhcp_config_wf(DhcpConfigView { pools: pools_view(pools), excluded: Seq::empty() }),
    ensures
        keys_unique(pools),
        keys_unique(pools_view(pools)),
{
    let pv = pools_view(pools);
    assert forall|a: int, b: int| 0 <= a < b < pools.len() implies #[trigger] pools[a].0 != #[trigger] pools[b].0 by {
        assert(pv[a].0 == pools[a].0 && pv[b].0 == pools[b].0);
    }
}

impl DhcpConfig {
    /// A configuration with no pools and no exclusions.
    pub fn new() -> (r: DhcpConfig)
        ensures
            r@ == (DhcpConfigView { pools: Seq::empty(), excluded: Seq::empty() }),
            dhcp_config_wf(r@),
    {
        let r = DhcpConfig { pools: Vec::new(), excluded: Vec::new() };
        assert(r@.pools =~= Seq::<(DhcpPoolId, PoolView)>::empty());
        r
    }

    /// The pools, by ascending identifier.
    pub fn pools(&self) -> (r: &[(DhcpPoolId, DhcpPoolConfig)])
        ensures
            pools_view(r@) == self@.pools,
    {
        self.pools.as_slice()
    }

    /// The excluded ranges, as first and last address.
    pub fn excluded(&self) -> (r: &[(Ipv4Addr, Ipv4Addr)])
        ensures
            r@ == self@.excluded,
    {
        self.excluded.as_slice()
    }

    /// Select the pool named `name`, ignoring ASCII case, or create it with a one-hour lease
    /// and no other options. The device must route.
    pub fn ensure_dhcp_pool(&mut self, name: &str, device: &Device) -> (r: Result<DhcpPoolId, DeviceError>)
        requires
            dhcp_config_wf(old(self)@),
        ensures
            dhcp_config_wf(final(self)@),
            (final(self)@, r) == ensure_pool_spec(old(self)@, name@, name.spec_bytes(), routing(device@.device_type)),
    {
        let supported = device.supports_routing();
        if !supported {
            return Err(DeviceError::DhcpUnsupported);
        }
        let bytes = name.as_bytes();
        if bytes.len() == 0 || bytes.len() > 32 {
            return Err(DeviceError::InvalidDhcpPoolName);
        }
        let mut k: usize = 0;
        while k < bytes.len()
            invariant
                routing(device@.device_type),
                self@ == old(self)@,
                dhcp_config_wf(self@),
                supported,
                1 <= bytes@.len() <= 32,
                k <= bytes@.len(),
                bytes@ == name.spec_bytes(),
                forall|j: int| 0 <= j < k ==> 0x21 <= #[trigger] bytes@[j] <= 0x7e,
            decreases bytes@.len() - k,
        {
            if bytes[k] < 0x21 || bytes[k] > 0x7e {
                return Err(DeviceError::InvalidDhcpPoolName);
            }
            k = k + 1;
        }
        let ghost pv = self@.pools;
        let mut i: usize = 0;
        while i < self.pools.len()
            invariant
                routing(device@.device_type),
                self@ == old(self)@,
                supported,
                pool_name_ok(bytes@),
                dhcp_config_wf(self@),
                pv == self@.pools,
                pv.len() == self.pools@.len(),
                i <= pv.len(),
                bytes@ == name.spec_bytes(),
                forall|j: int| 0 <= j < i ==> !#[trigger] pool_named(pv, bytes@, j),
            decreases pv.len() - i,
        {
            assert(pv[i as int] == (self.pools@[i as int].0, self.pools@[i as int].1@));
            let stored = self.pools[i].1.name.as_str();
            if bytes_eq_ignore_case(stored.as_bytes(), bytes) {
                proof {
                    assert(pool_named(pv, bytes@, i as int));
                    let c = choose|c: int| pool_named(pv, bytes@, c) && forall|j: int| 0 <= j < c ==> !#[trigger] pool_named(pv, bytes@, j);
                    if c < i {
                        assert(!pool_named(pv, bytes@, c));
                    } else if c > i {
                        assert(!pool_named(pv, bytes@, i as int));
                    }
                }
                return Ok(self.pools[i].0);
            }
            i = i + 1;
        }
        if self.pools.len() >= MAX_DHCP_POOLS {
            return Err(DeviceError::InvalidDhcpNetwork);
        }
        let id = DhcpPoolId((self.pools.len() + 1) as u32);
        let pool = DhcpPoolConfig {
            lease_seconds: 3600,
            dns_servers: Vec::new(),
            domain_name: None,
            reserved_address: None,
            hardware_address: None,
            name: name.to_owned(),
            network: None,
            default_router: None,
        };
        assert(pool@.dns_servers =~= Seq::<Ipv4Addr>::empty());
        assert(pool@ == new_pool(name@));
        self.pools.push((id, pool));
        assert(self@.pools =~= pv.push((id, new_pool(name@))));
        Ok(id)
    }

    /// Replace pool `id`'s options with `pool` after validating them, and withdraw the
    /// server's offers from that pool.
    pub fn update_dhcp_pool(&mut self, server: &mut DhcpServer, id: DhcpPoolId, pool: DhcpPoolConfig) -> (r: Result<
        (),
        DeviceError,
    >)
        requires
            dhcp_config_wf(old(self)@),
            dhcp_wf(old(server)@),
        ensures
            dhcp_config_wf(final(self)@),
            dhcp_wf(final(server)@),
            (final(self)@, r) == update_pool_spec(old(self)@, id, pool@),
            final(server)@ == if r is Ok {
                forget_pool_spec(old(server)@, id)
            } else {
                old(server)@
            },
    {
        let ghost pv = self@.pools;
        proof {
            lemma_pool_ids_unique(self.pools@);
        }
        let i = match find_pool(self.pools.as_slice(), id) {
            Some(i) => i,
            None => {
                proof {
                    assert(pools_view(self.pools@) == pv);
                    if has_key(pv, id) {
                        let k = choose|k: int| 0 <= k < pv.len() && #[trigger] pv[k].0 == id;
                        assert(self.pools@[k].0 == pv[k].0);
                    }
                }
                return Err(DeviceError::MissingDhcpPool);
            },
        };
        proof {
            assert(pv[i as int].0 == self.pools@[i as int].0);
            lemma_key_index(pv, i as int);
        }
        if !pool_is_valid(&self.pools[i].1.name, &pool) {
            return Err(DeviceError::InvalidDhcpNetwork);
        }
        let ghost pool_view = pool@;
        self.pools.set(i, (id, pool));
        assert(self@.pools =~= pv.update(i as int, (id, pool_view)));
        server.forget_pool_offers(id);
        Ok(())
    }

    /// Give pool `id` the network `network`, which must be no longer than /30, and withdraw
    /// the server's offers from that pool.
    pub fn set_dhcp_pool_network(&mut self, server: &mut DhcpServer, id: DhcpPoolId, network: Ipv4Network) -> (r:
        Result<(), DeviceError>)
        requires
            dhcp_config_wf(old(self)@),
            dhcp_wf(old(server)@),
        ensures
            dhcp_config_wf(final(self)@),
            dhcp_wf(final(server)@),
            (final(self)@, r) == set_network_spec(old(self)@, id, network),
            final(server)@ == if r is Ok {
                forget_pool_spec(old(server)@, id)
            } else {
                old(server)@
            },
    {
        if network.prefix_len() > 30 {
            return Err(DeviceError::InvalidDhcpNetwork);
        }
        let pool = match self.pool_with(id) {
            Some(p) => p,
            None => return Err(DeviceError::MissingDhcpPool),
        };
        let candidate = DhcpPoolConfig { network: Some(network), ..pool };
        self.update_dhcp_pool(server, id, candidate)
    }

    /// Give pool `id` the default router `router`, and withdraw the server's offers from that
    /// pool.
    pub fn set_dhcp_default_router(&mut self, server: &mut DhcpServer, id: DhcpPoolId, router: Ipv4Addr) -> (r:
        Result<(), DeviceError>)
        requires
            dhcp_config_wf(old(self)@),
            dhcp_wf(old(server)@),
        ensures
            dhcp_config_wf(final(self)@),
            dhcp_wf(final(server)@),
            (final(self)@, r) == set_router_spec(old(self)@, id, router),
            final(server)@ == if r is Ok {
                forget_pool_spec(old(server)@, id)
            } else {
                old(server)@
            },
    {
        let pool = match self.pool_with(id) {
            Some(p) => p,
            None => return Err(DeviceError::MissingDhcpPool),
        };
        let candidate = DhcpPoolConfig { default_router: Some(router), ..pool };
        self.update_dhcp_pool(server, id, candidate)
    }

    /// An independent copy of pool `id`'s options, if the pool exists.
    fn pool_with(&self, id: DhcpPoolId) -> (r: Option<DhcpPoolConfig>)
        requires
            dhcp_config_wf(self@),
        ensures
            r is Some <==> has_key(self@.pools, id),
            r matches Some(p) ==> p@ == value_of(self@.pools, id),
    {
        let ghost pv = self@.pools;
        proof {
            lemma_pool_ids_unique(self.pools@);
        }
        match find_pool(self.pools.as_slice(), id) {
            Some(i) => {
                proof {
                    assert(pv[i as int] == (self.pools@[i as int].0, self.pools@[i as int].1@));
                    lemma_key_index(pv, i as int);
                }
                let p = &self.pools[i].1;
                let mut dns: Vec<Ipv4Addr> = Vec::new();
                let mut k: usize = 0;
                while k < p.dns_servers.len()
                    invariant
                        k <= p.dns_servers@.len(),
                        dns@ == p.dns_servers@.take(k as int),
                    decreases p.dns_servers@.len() - k,
                {
                    dns.push(p.dns_servers[k]);
                    k = k + 1;
                    assert(dns@ =~= p.dns_servers@.take(k as int));
                }
                assert(p.dns_servers@.take(k as int) =~= p.dns_servers@);
                let domain = match &p.domain_name {
                    Some(d) => Some(d.clone()),
                    None => None,
                };
                let copy = DhcpPoolConfig {
                    lease_seconds: p.lease_seconds,
                    dns_servers: dns,
                    domain_name: domain,
                    reserved_address: p.reserved_address,
                    hardware_address: p.hardware_address,
                    name: p.name.clone(),
                    network: p.network,
                    default_router: p.default_router,
                };
                assert(copy@ == p@);
                Some(copy)
            },
            None => {
                proof {
                    if has_key(pv, id) {
                        let k = choose|k: int| 0 <= k < pv.len() && #[trigger] pv[k].0 == id;
                        assert(self.pools@[k].0 == pv[k].0);
                    }
                }
                None
            },
        }
    }

    /// Exclude the inclusive range `first..=last` from every pool and withdraw the server's
    /// offers in it. The device must route or be a host.
    pub fn exclude_dhcp_addresses(
        &mut self,
        server: &mut DhcpServer,
        first: Ipv4Addr,
        last: Ipv4Addr,
        device: &Device,
    ) -> (r: Result<(), DeviceError>)
        requires
            dhcp_config_wf(old(self)@),
            dhcp_wf(old(server)@),
        ensures
            dhcp_config_wf(final(self)@),
            dhcp_wf(final(server)@),
            (final(self)@, r) == exclude_spec(old(self)@, first, last, (routing(device@.device_type) || device@.device_type == DeviceType::Host)),
            final(server)@ == if r is Ok {
                forget_range_spec(old(server)@, first, last)
            } else {
                old(server)@
            },
    {
        let supported = device.supports_routing() || device.device_type() == DeviceType::Host;
        if !supported {
            return Err(DeviceError::DhcpUnsupported);
        }
        let known = find_address(&self.excluded, first).is_some();
        if first.0 > last.0 || !valid_address(first) || !valid_address(last) || (self.excluded.len()
            >= MAX_DHCP_EXCLUSIONS && !known) {
            return Err(DeviceError::InvalidDhcpNetwork);
        }
        let ghost pv = self@.pools;
        put_address(&mut self.excluded, first, last);
        assert(self@.pools == pv);
        server.forget_offers_in(first, last);
        Ok(())
    }
}

} // verus!
