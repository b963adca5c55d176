//! BGP configuration and the decisions a BGP speaker draws from it: validated edits of the
//! process, its peers and its originated networks, the TTL of peer transport, the router
//! identifier in use, and when the protocol next needs time.
use crate::device::{policy_name_ok, policy_name_valid, DeviceError};
use crate::inventory::{routing, Device};
use crate::ipv4::{Ipv4Addr, Ipv4Network};
use crate::keyed::{
    has_key, key_index, keys_unique, lemma_key_index, lemma_put_unique, lemma_without_unique,
    put, value_of, without,
};
use crate::routing::InterfaceId;
use crate::tcp::TcpSocket;
use vstd::prelude::*;
use vstd::string::StringSliceAdditionalSpecFns;
use vstd::utf8::encode_utf8;

verus! {

/// Largest number of configured peers.
pub const MAX_BGP_PEERS: usize = 256;

/// Largest number of originated networks.
pub const MAX_BGP_NETWORKS: usize = 4096;

/// Longest wait between protocol maintenance rounds, in microseconds.
pub const BGP_MAINTENANCE_US: u64 = 1_000_000;

/// The prefix list and route map applied to one direction of a peer.
#[derive(Debug, Clone)]
pub struct BgpPolicy {
    pub prefix_list: Option<String>,
    pub route_map: Option<String>,
}

/// Advertise a default route to a peer, optionally through a route map.
#[derive(Debug, Clone)]
pub struct BgpDefaultOriginate {
    pub route_map: Option<String>,
}

/// The configuration of one peer.
#[derive(Debug, Clone)]
pub struct BgpNeighborConfig {
    pub remote_as: u32,
    pub update_source: Option<InterfaceId>,
    pub inbound: BgpPolicy,
    pub outbound: BgpPolicy,
    pub default_originate: Option<BgpDefaultOriginate>,
    pub route_reflector_client: bool,
    pub next_hop_self: bool,
}

/// The configuration of the BGP process: its AS, identifiers, peers by address, and the
/// networks it originates.
#[derive(Debug, Clone)]
pub struct BgpConfig {
    pub local_as: u32,
    pub router_id: Option<Ipv4Addr>,
    pub cluster_id: Option<Ipv4Addr>,
    pub neighbors: Vec<(Ipv4Addr, BgpNeighborConfig)>,
    pub networks: Vec<Ipv4Network>,
}

/// A BGP configuration as a mathematical value.
#[verifier::ext_equal]
pub struct BgpConfigView {
    pub local_as: u32,
    pub router_id: Option<Ipv4Addr>,
    pub cluster_id: Option<Ipv4Addr>,
    pub neighbors: Seq<(Ipv4Addr, BgpNeighborConfig)>,
    pub networks: Seq<(u32, u8)>,
}

/// Networks as mathematical values.
pub open spec fn networks_view(s: Seq<Ipv4Network>) -> Seq<(u32, u8)> {
    s.map_values(|n: Ipv4Network| n@)
}

impl View for BgpConfig {
    type V = BgpConfigView;

    open spec fn view(&self) -> BgpConfigView {
        BgpConfigView {
            local_as: self.local_as,
            router_id: self.router_id,
            cluster_id: self.cluster_id,
            neighbors: self.neighbors@,
            networks: networks_view(self.networks@),
        }
    }
}

/// The configured BGP process, if any, with the AS and router identifier the running
/// speaker last used.
#[derive(Debug)]
pub struct BgpRouter {
    config: Option<BgpConfig>,
    local_as: Option<u32>,
    router_id: Option<Ipv4Addr>,
}

/// A BGP speaker as a mathematical value.
#[verifier::ext_equal]
pub struct BgpRouterView {
    pub config: Option<BgpConfigView>,
    pub local_as: Option<u32>,
    pub router_id: Option<Ipv4Addr>,
}

impl View for BgpRouter {
    type V = BgpRouterView;

    closed spec fn view(&self) -> BgpRouterView {
        BgpRouterView {
            config: match self.config {
                Some(c) => Some(c@),
                None => None,
            },
            local_as: self.local_as,
            router_id: self.router_id,
        }
    }
}

/// A configuration with distinct peers and networks within their limits.
pub open spec fn bgp_config_wf(c: BgpConfigView) -> bool {
    &&& keys_unique(c.neighbors)
    &&& c.neighbors.len() <= MAX_BGP_PEERS
    &&& c.networks.no_duplicates()
    &&& c.networks.len() <= MAX_BGP_NETWORKS
}

/// A speaker whose configuration, if any, is well formed.
pub open spec fn bgp_wf(v: BgpRouterView) -> bool {
    v.config matches Some(c) ==> bgp_config_wf(c)
}

/// A new process for `asn`: no identifiers, peers or networks.
pub open spec fn new_config(asn: u32) -> BgpConfigView {
    BgpConfigView {
        local_as: asn,
        router_id: None,
        cluster_id: None,
        neighbors: Seq::empty(),
        networks: Seq::empty(),
    }
}

/// An address usable as a peer or identifier: not 0.0.0.0, multicast, or 255.255.255.255.
pub open spec fn unicast(a: Ipv4Addr) -> bool {
    a.0 != 0 && !(0xe000_0000 <= a.0 <= 0xefff_ffff) && a.0 != 0xffff_ffff
}

/// An optional policy name that, when present, is a valid policy name.
pub open spec fn name_ok(n: Option<String>) -> bool {
    n matches Some(s) ==> policy_name_ok(encode_utf8(s@))
}

/// Whether a peer may be configured on a process for `local_as`: its AS is neither 0 nor
/// 4294967295, its update source is an existing interface, its policy names are valid, and
/// a route-reflector client is internal.
pub open spec fn peer_ok(p: BgpNeighborConfig, local_as: u32, interfaces: Seq<InterfaceId>) -> bool {
    &&& p.remote_as != 0 && p.remote_as != u32::MAX
    &&& p.update_source matches Some(i) ==> interfaces.contains(i)
    &&& name_ok(p.inbound.prefix_list) && name_ok(p.inbound.route_map)
    &&& name_ok(p.outbound.prefix_list) && name_ok(p.outbound.route_map)
    &&& p.default_originate matches Some(d) ==> name_ok(d.route_map)
    &&& p.route_reflector_client ==> p.remote_as == local_as
}

/// The state and result of enabling the process for `asn`, or removing it. Enabling it for
/// the AS it already runs keeps its configuration; another AS starts afresh. `supported`
/// tells whether the device routes.
pub open spec fn process_spec(v: BgpRouterView, asn: Option<u32>, supported: bool) -> (
    BgpRouterView,
    Result<(), DeviceError>,
) {
    if !supported || (asn matches Some(n) && (n == 0 || n == u32::MAX)) {
        (v, Err(DeviceError::InvalidBgpConfig))
    } else {
        match asn {
            None => (BgpRouterView { config: None, ..v }, Ok(())),
            Some(a) => if v.config matches Some(c) && c.local_as == a {
                (v, Ok(()))
            } else {
                (BgpRouterView { config: Some(new_config(a)), ..v }, Ok(()))
            },
        }
    }
}

/// The state and result of configuring a router identifier, or restoring automatic
/// selection, which also forgets the identifier in use.
pub open spec fn router_id_spec(v: BgpRouterView, id: Option<Ipv4Addr>) -> (BgpRouterView, Result<(), DeviceError>) {
    if id matches Some(a) && !unicast(a) {
        (v, Err(DeviceError::InvalidBgpConfig))
    } else {
        match v.config {
            None => (v, Err(DeviceError::InvalidBgpConfig)),
            Some(c) => (
                BgpRouterView {
                    config: Some(BgpConfigView { router_id: id, ..c }),
                    router_id: if id is None {
                        None
                    } else {
                        v.router_id
                    },
                    ..v
                },
                Ok(()),
            ),
        }
    }
}

/// The state and result of configuring a route-reflector cluster identifier.
pub open spec fn cluster_id_spec(v: BgpRouterView, id: Option<Ipv4Addr>) -> (BgpRouterView, Result<(), DeviceError>) {
    if id matches Some(a) && !unicast(a) {
        (v, Err(DeviceError::InvalidBgpConfig))
    } else {
        match v.config {
            None => (v, Err(DeviceError::InvalidBgpConfig)),
            Some(c) => (BgpRouterView { config: Some(BgpConfigView { cluster_id: id, ..c }), ..v }, Ok(())),
        }
    }
}

/// The state and result of configuring the peer at `address`, or removing it. `interfaces`
/// lists the device's interfaces.
pub open spec fn neighbor_spec(
    v: BgpRouterView,
    address: Ipv4Addr,
    peer: Option<BgpNeighborConfig>,
    interfaces: Seq<InterfaceId>,
) -> (BgpRouterView, Result<(), DeviceError>) {
    if !unicast(address) {
        (v, Err(DeviceError::InvalidBgpConfig))
    } else {
        match v.config {
            None => (v, Err(DeviceError::InvalidBgpConfig)),
            Some(c) => match peer {
                Some(p) => if !peer_ok(p, c.local_as, interfaces) || (c.neighbors.len() >= MAX_BGP_PEERS
                    && !has_key(c.neighbors, address)) {
                    (v, Err(DeviceError::InvalidBgpConfig))
                } else {
                    (
                        BgpRouterView {
                            config: Some(BgpConfigView { neighbors: put(c.neighbors, address, p), ..c }),
                            ..v
                        },
                        Ok(()),
                    )
                },
                None => (
                    BgpRouterView { config: Some(BgpConfigView { neighbors: without(c.neighbors, address), ..c }), ..v },
                    Ok(()),
                ),
            },
        }
    }
}

/// The networks after adding `n` when absent.
pub open spec fn with_network(s: Seq<(u32, u8)>, n: (u32, u8)) -> Seq<(u32, u8)> {
    if s.contains(n) {
        s
    } else {
        s.push(n)
    }
}

/// The networks after removing `n` when present.
pub open spec fn without_network(s: Seq<(u32, u8)>, n: (u32, u8)) -> Seq<(u32, u8)> {
    if s.contains(n) {
        s.remove(s.index_of(n))
    } else {
        s
    }
}

/// The state and result of originating `prefix`, or no longer originating it.
pub open spec fn network_spec(v: BgpRouterView, prefix: (u32, u8), present: bool) -> (
    BgpRouterView,
    Result<(), DeviceError>,
) {
    if (0xe000_0000 <= prefix.0 <= 0xefff_ffff) || prefix.0 == 0xffff_ffff {
        (v, Err(DeviceError::InvalidBgpConfig))
    } else {
        match v.config {
            None => (v, Err(DeviceError::InvalidBgpConfig)),
            Some(c) => if present {
                if c.networks.len() >= MAX_BGP_NETWORKS && !c.networks.contains(prefix) {
                    (v, Err(DeviceError::InvalidBgpConfig))
                } else {
                    (
                        BgpRouterView {
                            config: Some(BgpConfigView { networks: with_network(c.networks, prefix), ..c }),
                            ..v
                        },
                        Ok(()),
                    )
                }
            } else {
                (
                    BgpRouterView {
                        config: Some(BgpConfigView { networks: without_network(c.networks, prefix), ..c }),
                        ..v
                    },
                    Ok(()),
                )
            },
        }
    }
}

/// The TTL of transport to `destination`: 255 to an internal peer, 1 to an external one,
/// none when it is no configured peer.
pub open spec fn ttl_spec(v: BgpRouterView, destination: Ipv4Addr) -> Option<u8> {
    match v.config {
        None => None,
        Some(c) => if has_key(c.neighbors, destination) {
            Some(
                if value_of(c.neighbors, destination).remote_as == c.local_as {
                    255u8
                } else {
                    1u8
                },
            )
        } else {
            None
        },
    }
}

/// Whether candidate `c` counts when only loopbacks do (`loopbacks`) or when all do.
pub open spec fn eligible(c: (Ipv4Addr, bool), loopbacks: bool) -> bool {
    !loopbacks || c.1
}

/// Whether `a` is the highest eligible candidate address.
pub open spec fn highest(cands: Seq<(Ipv4Addr, bool)>, loopbacks: bool, a: Ipv4Addr) -> bool {
    &&& exists|i: int| 0 <= i < cands.len() && eligible(cands[i], loopbacks) && #[trigger] cands[i].0 == a
    &&& forall|i: int| 0 <= i < cands.len() && eligible(#[trigger] cands[i], loopbacks) ==> cands[i].0.0 <= a.0
}

/// The highest eligible candidate address, if any candidate is eligible.
pub open spec fn highest_address(cands: Seq<(Ipv4Addr, bool)>, loopbacks: bool) -> Option<Ipv4Addr> {
    if exists|a: Ipv4Addr| highest(cands, loopbacks, a) {
        Some(choose|a: Ipv4Addr| highest(cands, loopbacks, a))
    } else {
        None
    }
}

/// The router identifier in use: the configured one, else the one already in use, else the
/// highest address of an up loopback, else the highest address of any up interface.
/// `cands` lists the addresses of the up interfaces with whether each is a loopback.
pub open spec fn router_id_choice(
    configured: Option<Ipv4Addr>,
    previous: Option<Ipv4Addr>,
    cands: Seq<(Ipv4Addr, bool)>,
) -> Option<Ipv4Addr> {
    if configured is Some {
        configured
    } else if previous is Some {
        previous
    } else if highest_address(cands, true) is Some {
        highest_address(cands, true)
    } else {
        highest_address(cands, false)
    }
}

/// The configured router identifier.
pub open spec fn configured_id(v: BgpRouterView) -> Option<Ipv4Addr> {
    match v.config {
        Some(c) => c.router_id,
        None => None,
    }
}

/// The configured AS.
pub open spec fn configured_as(v: BgpRouterView) -> Option<u32> {
    match v.config {
        Some(c) => Some(c.local_as),
        None => None,
    }
}

/// The state after a maintenance round picks its AS and router identifier, the identifier
/// picked, and whether every session must restart: the process is gone, or its AS or router
/// identifier changed.
pub open spec fn refresh_spec(v: BgpRouterView, cands: Seq<(Ipv4Addr, bool)>) -> (
    BgpRouterView,
    Option<Ipv4Addr>,
    bool,
) {
    let id = router_id_choice(configured_id(v), v.router_id, cands);
    (
        BgpRouterView { local_as: configured_as(v), router_id: id, ..v },
        id,
        v.config is None || v.local_as != configured_as(v) || v.router_id != id,
    )
}

/// `now` plus the maintenance interval, saturating.
pub open spec fn maintenance_cap(now: u64) -> u64 {
    if now + BGP_MAINTENANCE_US > u64::MAX {
        u64::MAX
    } else {
        (now + BGP_MAINTENANCE_US) as u64
    }
}

proof fn lemma_highest_unique(cands: Seq<(Ipv4Addr, bool)>, loopbacks: bool, a: Ipv4Addr)
    requires
        highest(cands, loopbacks, a),
    ensures
        highest_address(cands, loopbacks) == Some(a),
{
    let b = choose|b: Ipv4Addr| highest(cands, loopbacks, b);
    let i = choose|i: int| 0 <= i < cands.len() && eligible(cands[i], loopbacks) && #[trigger] cands[i].0 == a;
    let j = choose|j: int| 0 <= j < cands.len() && eligible(cands[j], loopbacks) && #[trigger] cands[j].0 == b;
    assert(cands[i].0.0 <= b.0);
    assert(cands[j].0.0 <= a.0);
}

/// The highest eligible candidate address.
fn find_highest(cands: &[(Ipv4Addr, bool)], loopbacks: bool) -> (r: Option<Ipv4Addr>)
    ensures
        r == highest_address(cands@, loopbacks),
{
    let mut best: Option<Ipv4Addr> = None;
    let mut i: usize = 0;
    while i < cands.len()
        invariant
            i <= cands@.len(),
            match best {
                None => forall|j: int| 0 <= j < i ==> !eligible(#[trigger] cands@[j], loopbacks),
                Some(a) => (exists|j: int| 0 <= j < i && eligible(cands@[j], loopbacks) && #[trigger] cands@[j].0 == a)
                    && forall|j: int| 0 <= j < i && eligible(#[trigger] cands@[j], loopbacks) ==> cands@[j].0.0 <= a.0,
            },
        decreases cands@.len() - i,
    {
        let (address, is_loopback) = cands[i];
        if !loopbacks || is_loopback {
            match best {
                None => {
                    best = Some(address);
                },
                Some(a) => {
                    if address.0 > a.0 {
                        best = Some(address);
                    }
                },
            }
        }
        proof {
            assert(cands@[i as int] == (address, is_loopback));
        }
        i = i + 1;
    }
    match best {
        Some(a) => {
            proof {
                lemma_highest_unique(cands@, loopbacks, a);
            }
        },
        None => {
            assert(!exists|a: Ipv4Addr| highest(cands@, loopbacks, a)) by {
                if exists|a: Ipv4Addr| highest(cands@, loopbacks, a) {
                    let a = choose|a: Ipv4Addr| highest(cands@, loopbacks, a);
                    let j = choose|j: int| 0 <= j < cands@.len() && eligible(cands@[j], loopbacks) && #[trigger] cands@[j].0 == a;
                    assert(!eligible(cands@[j], loopbacks));
                }
            }
        },
    }
    best
}

/// When the protocol next needs time: the earliest of `deadlines` after `now`, but no later
/// than one maintenance interval after `now`.
pub fn bgp_next_deadline(now: u64, deadlines: &[u64]) -> (r: u64)
    ensures
        r <= maintenance_cap(now),
        forall|i: int| 0 <= i < deadlines@.len() && deadlines@[i] > now ==> r <= #[trigger] deadlines@[i],
        r == maintenance_cap(now) || exists|i: int| 0 <= i < deadlines@.len() && deadlines@[i] > now && #[trigger] deadlines@[i] == r,
{
    let mut next: u64 = now.saturating_add(BGP_MAINTENANCE_US);
    let mut i: usize = 0;
    while i < deadlines.len()
        invariant
            i <= deadlines@.len(),
            next <= maintenance_cap(now),
            forall|j: int| 0 <= j < i && deadlines@[j] > now ==> next <= #[trigger] deadlines@[j],
            next == maintenance_cap(now) || exists|j: int| 0 <= j < i && deadlines@[j] > now && #[trigger] deadlines@[j] == next,
        decreases deadlines@.len() - i,
    {
        let at = deadlines[i];
        if at > now && at < next {
            next = at;
        }
        i = i + 1;
    }
    next
}

/// Whether `n` is among `nets`, by value.
fn network_index(nets: &Vec<Ipv4Network>, n: Ipv4Network) -> (r: Option<usize>)
    ensures
        match r {
            Some(i) => i < nets@.len() && networks_view(nets@)[i as int] == n@,
            None => !networks_view(nets@).contains(n@),
        },
{
    let mut i: usize = 0;
    while i < nets.len()
        invariant
            i <= nets@.len(),
            forall|j: int| 0 <= j < i ==> #[trigger] networks_view(nets@)[j] != n@,
        decreases nets@.len() - i,
    {
        if nets[i].address().0 == n.address().0 && nets[i].prefix_len() == n.prefix_len() {
            return Some(i);
        }
        i = i + 1;
    }
    None
}

fn find_neighbor(s: &Vec<(Ipv4Addr, BgpNeighborConfig)>, k: Ipv4Addr) -> (r: Option<usize>)
    requires
        keys_unique(s@),
    ensures
        match r {
            Some(i) => i < s@.len() && has_key(s@, k) && key_index(s@, k) == i && s@[i as int].0 == k,
            None => !has_key(s@, k),
        },
{
    let mut i: usize = 0;
    while i < s.len()
        invariant
            keys_unique(s@),
            i <= s@.len(),
            forall|j: int| 0 <= j < i ==> #[trigger] s@[j].0 != k,
        decreases s@.len() - i,
    {
        if s[i].0.0 == k.0 {
            proof {
                lemma_key_index(s@, i as int);
            }
            return Some(i);
        }
        i = i + 1;
    }
    None
}

fn optional_name_ok(n: &Option<String>) -> (r: bool)
    ensures
        r == name_ok(*n),
{
    match n {
        Some(s) => policy_name_valid(s.as_str()),
        None => true,
    }
}

fn interface_listed(interfaces: &[InterfaceId], id: InterfaceId) -> (r: bool)
    ensures
        r == interfaces@.contains(id),
{
    let mut i: usize = 0;
    while i < interfaces.len()
        invariant
            i <= interfaces@.len(),
            forall|j: int| 0 <= j < i ==> #[trigger] interfaces@[j] != id,
        decreases interfaces@.len() - i,
    {
        if interfaces[i].0 == id.0 {
            assert(interfaces@[i as int] == id);
            return true;
        }
        i = i + 1;
    }
    false
}

fn peer_valid(p: &BgpNeighborConfig, local_as: u32, interfaces: &[InterfaceId]) -> (r: bool)
    ensures
        r == peer_ok(*p, local_as, interfaces@),
{
    if p.remote_as == 0 || p.remote_as == u32::MAX {
        return false;
    }
    if let Some(i) = p.update_source {
        if !interface_listed(interfaces, i) {
            return false;
        }
    }
    if !optional_name_ok(&p.inbound.prefix_list) || !optional_name_ok(&p.inbound.route_map)
        || !optional_name_ok(&p.outbound.prefix_list) || !optional_name_ok(&p.outbound.route_map) {
        return false;
    }
    if let Some(d) = &p.default_originate {
        if !optional_name_ok(&d.route_map) {
            return false;
        }
    }
    !p.route_reflector_client || p.remote_as == local_as
}

fn is_unicast(a: Ipv4Addr) -> (r: bool)
    ensures
        r == unicast(a),
{
    !a.is_unspecified() && !a.is_multicast() && !a.is_broadcast()
}

impl BgpRouter {
    /// A device without a BGP process.
    pub fn new() -> (r: BgpRouter)
        ensures
            r@ == (BgpRouterView { config: None, local_as: None, router_id: None }),
            bgp_wf(r@),
    {
        BgpRouter { config: None, local_as: None, router_id: None }
    }

    /// The configured process, if any.
    pub fn config(&self) -> (r: Option<&BgpConfig>)
        ensures
            match r {
                Some(c) => self@.config == Some(c@),
                None => self@.config is None,
            },
    {
        match &self.config {
            Some(c) => Some(c),
            None => None,
        }
    }

    /// The router identifier the running speaker last used.
    pub fn router_id(&self) -> (r: Option<Ipv4Addr>)
        ensures
            r == self@.router_id,
    {
        self.router_id
    }

    /// Enable the process for `asn`, or remove it. Enabling it for the AS it already runs
    /// keeps its configuration. The device must route.
    pub fn set_bgp_process(&mut self, asn: Option<u32>, device: &Device) -> (r: Result<(), DeviceError>)
        requires
            bgp_wf(old(self)@),
        ensures
            bgp_wf(final(self)@),
            (final(self)@, r) == process_spec(old(self)@, asn, routing(device@.device_type)),
    {
        let supported = device.supports_routing();
        if !supported {
            return Err(DeviceError::InvalidBgpConfig);
        }
        match asn {
            None => {
                self.config = None;
            },
            Some(a) => {
                if a == 0 || a == u32::MAX {
                    return Err(DeviceError::InvalidBgpConfig);
                }
                let same = match &self.config {
                    Some(c) => c.local_as == a,
                    None => false,
                };
                if !same {
                    let c = BgpConfig {
                        local_as: a,
                        router_id: None,
                        cluster_id: None,
                        neighbors: Vec::new(),
                        networks: Vec::new(),
                    };
                    assert(c@ =~= new_config(a));
                    self.config = Some(c);
                }
            },
        }
        proof {
            assert(self@ =~= process_spec(old(self)@, asn, supported).0);
        }
        Ok(())
    }

    /// Configure a unicast router identifier, or restore automatic selection.
    pub fn set_bgp_router_id(&mut self, id: Option<Ipv4Addr>) -> (r: Result<(), DeviceError>)
        requires
            bgp_wf(old(self)@),
        ensures
            bgp_wf(final(self)@),
            (final(self)@, r) == router_id_spec(old(self)@, id),
    {
        if let Some(a) = id {
            if !is_unicast(a) {
                return Err(DeviceError::InvalidBgpConfig);
            }
        }
        match &mut self.config {
            None => {
                return Err(DeviceError::InvalidBgpConfig);
            },
            Some(c) => {
                c.router_id = id;
            },
        }
        if id.is_none() {
            self.router_id = None;
        }
        proof {
            assert(self@ =~= router_id_spec(old(self)@, id).0);
        }
        Ok(())
    }

    /// Configure a unicast route-reflector cluster identifier, or use the router identifier.
    pub fn set_bgp_cluster_id(&mut self, id: Option<Ipv4Addr>) -> (r: Result<(), DeviceError>)
        requires
            bgp_wf(old(self)@),
        ensures
            bgp_wf(final(self)@),
            (final(self)@, r) == cluster_id_spec(old(self)@, id),
    {
        if let Some(a) = id {
            if !is_unicast(a) {
                return Err(DeviceError::InvalidBgpConfig);
            }
        }
        match &mut self.config {
            None => {
                return Err(DeviceError::InvalidBgpConfig);
            },
            Some(c) => {
                c.cluster_id = id;
            },
        }
        proof {
            assert(self@ =~= cluster_id_spec(old(self)@, id).0);
        }
        Ok(())
    }

    /// Configure the peer at `address`, or remove it. `interfaces` lists the device's
    /// interfaces, among which a peer's update source must be.
    pub fn set_bgp_neighbor(
        &mut self,
        address: Ipv4Addr,
        peer: Option<BgpNeighborConfig>,
        interfaces: &[InterfaceId],
    ) -> (r: Result<(), DeviceError>)
        requires
            bgp_wf(old(self)@),
        ensures
            bgp_wf(final(self)@),
            (final(self)@, r) == neighbor_spec(old(self)@, address, peer, interfaces@),
    {
        if !is_unicast(address) {
            return Err(DeviceError::InvalidBgpConfig);
        }
        let ghost v = self@;
        match &mut self.config {
            None => {
                return Err(DeviceError::InvalidBgpConfig);
            },
            Some(c) => {
                let ghost cv = c@;
                match peer {
                    Some(p) => {
                        if !peer_valid(&p, c.local_as, interfaces) {
                            return Err(DeviceError::InvalidBgpConfig);
                        }
                        let found = find_neighbor(&c.neighbors, address);
                        if c.neighbors.len() >= MAX_BGP_PEERS && found.is_none() {
                            return Err(DeviceError::InvalidBgpConfig);
                        }
                        proof {
                            lemma_put_unique(cv.neighbors, address, p);
                        }
                        match found {
                            Some(i) => {
                                c.neighbors.set(i, (address, p));
                            },
                            None => {
                                c.neighbors.push((address, p));
                            },
                        }
                    },
                    None => {
                        proof {
                            lemma_without_unique(cv.neighbors, address);
                        }
                        if let Some(i) = find_neighbor(&c.neighbors, address) {
                            let _ = c.neighbors.remove(i);
                        }
                    },
                }
            },
        }
        proof {
            assert(self@ =~= neighbor_spec(old(self)@, address, peer, interfaces@).0);
        }
        Ok(())
    }

    /// Originate `prefix`, or stop originating it.
    pub fn set_bgp_network(&mut self, prefix: Ipv4Network, present: bool) -> (r: Result<(), DeviceError>)
        requires
            bgp_wf(old(self)@),
        ensures
            bgp_wf(final(self)@),
            (final(self)@, r) == network_spec(old(self)@, prefix@, present),
    {
        let address = prefix.address();
        if address.is_multicast() || address.is_broadcast() {
            return Err(DeviceError::InvalidBgpConfig);
        }
        match &mut self.config {
            None => {
                return Err(DeviceError::InvalidBgpConfig);
            },
            Some(c) => {
                let ghost nets = networks_view(c.networks@);
                let found = network_index(&c.networks, prefix);
                if present {
                    if c.networks.len() >= MAX_BGP_NETWORKS && found.is_none() {
                        return Err(DeviceError::InvalidBgpConfig);
                    }
                    if found.is_none() {
                        c.networks.push(prefix);
                        proof {
                            assert(networks_view(c.networks@) =~= nets.push(prefix@));
                        }
                    }
                } else {
                    if let Some(i) = found {
                        proof {
                            assert(nets[i as int] == prefix@);
                            let k = nets.index_of(prefix@);
                            assert(nets[k] == prefix@);
                            if k != i {
                                assert(nets.no_duplicates());
                            }
                        }
                        let _ = c.networks.remove(i);
                        proof {
                            assert(networks_view(c.networks@) =~= nets.remove(i as int));
                        }
                    }
                }
            },
        }
        proof {
            let s = network_spec(old(self)@, prefix@, present).0;
            assert(self@ =~= s);
            if let Some(c) = s.config {
                let old_nets = old(self)@.config->0.networks;
                assert(c.networks.no_duplicates()) by {
                    if c.networks.len() < old_nets.len() {
                        let k = old_nets.index_of(prefix@);
                        assert forall|a: int, b: int| 0 <= a < b < c.networks.len() implies c.networks[a] != c.networks[b] by {
                            let a2 = if a < k { a } else { a + 1 };
                            let b2 = if b < k { b } else { b + 1 };
                            assert(c.networks[a] == old_nets[a2] && c.networks[b] == old_nets[b2]);
                        }
                    } else if c.networks.len() > old_nets.len() {
                        assert forall|a: int, b: int| 0 <= a < b < c.networks.len() implies c.networks[a] != c.networks[b] by {
                            if b == old_nets.len() {
                                assert(c.networks[a] == old_nets[a]);
                            }
                        }
                    }
                }
            }
        }
        Ok(())
    }

    /// The TTL of transport to `destination`: 255 to an internal peer, 1 to an external
    /// one, none when it is no configured peer.
    pub fn bgp_transport_ttl(&self, destination: Ipv4Addr) -> (r: Option<u8>)
        requires
            bgp_wf(self@),
        ensures
            r == ttl_spec(self@, destination),
    {
        match &self.config {
            None => None,
            Some(c) => match find_neighbor(&c.neighbors, destination) {
                None => None,
                Some(i) => Some(
                    if c.neighbors[i].1.remote_as == c.local_as {
                        255
                    } else {
                        1
                    },
                ),
            },
        }
    }

    /// Start a maintenance round: pick the AS and router identifier to run with, and report
    /// the identifier and whether every session must restart. `cands` lists the addresses
    /// of the up interfaces with whether each is a loopback.
    pub fn refresh(&mut self, cands: &[(Ipv4Addr, bool)]) -> (r: (Option<Ipv4Addr>, bool))
        requires
            bgp_wf(old(self)@),
        ensures
            bgp_wf(final(self)@),
            (final(self)@, r.0, r.1) == refresh_spec(old(self)@, cands@),
    {
        let (configured, local_as) = match &self.config {
            Some(c) => (c.router_id, Some(c.local_as)),
            None => (None, None),
        };
        let id = if configured.is_some() {
            configured
        } else if self.router_id.is_some() {
            self.router_id
        } else {
            let loopback = find_highest(cands, true);
            if loopback.is_some() {
                loopback
            } else {
                find_highest(cands, false)
            }
        };
        let same_as = match (self.local_as, local_as) {
            (Some(a), Some(b)) => a == b,
            (None, None) => true,
            _ => false,
        };
        let same_id = match (self.router_id, id) {
            (Some(a), Some(b)) => a.0 == b.0,
            (None, None) => true,
            _ => false,
        };
        let restart = self.config.is_none() || !same_as || !same_id;
        self.local_as = local_as;
        self.router_id = id;
        proof {
            assert(self@ =~= refresh_spec(old(self)@, cands@).0);
        }
        (id, restart)
    }
}


/// What a read gives back of a write: once a peer is configured, transport to it uses TTL
/// 255 when it is internal and 1 when it is external; once removed, it gets none.
pub proof fn lemma_neighbor_then_ttl(
    v: BgpRouterView,
    address: Ipv4Addr,
    peer: Option<BgpNeighborConfig>,
    interfaces: Seq<InterfaceId>,
)
    requires
        bgp_wf(v),
        neighbor_spec(v, address, peer, interfaces).1 is Ok,
    ensures
        ttl_spec(neighbor_spec(v, address, peer, interfaces).0, address) == match peer {
            Some(p) => Some(
                if p.remote_as == v.config->0.local_as {
                    255u8
                } else {
                    1u8
                },
            ),
            None => None,
        },
{
    let c = v.config->0;
    match peer {
        Some(p) => {
            crate::keyed::lemma_put_holds(c.neighbors, address, p);
            lemma_put_unique(c.neighbors, address, p);
            crate::keyed::lemma_value_of(put(c.neighbors, address, p), address, p);
        },
        None => {
            lemma_without_unique(c.neighbors, address);
        },
    }
}

/// Originated networks behave as a set: after originating a prefix it is originated, and
/// after withdrawing it, it is not.
pub proof fn lemma_network_membership(v: BgpRouterView, prefix: (u32, u8), present: bool)
    requires
        bgp_wf(v),
        network_spec(v, prefix, present).1 is Ok,
    ensures
        network_spec(v, prefix, present).0.config->0.networks.contains(prefix) == present,
{
    let nets = v.config->0.networks;
    let after = network_spec(v, prefix, present).0.config->0.networks;
    if present {
        if !nets.contains(prefix) {
            assert(after[nets.len() as int] == prefix);
        }
    } else if nets.contains(prefix) {
        let k = nets.index_of(prefix);
        if after.contains(prefix) {
            let j = choose|j: int| 0 <= j < after.len() && after[j] == prefix;
            let j2 = if j < k { j } else { j + 1 };
            assert(after[j] == nets[j2]);
            assert(nets[j2] == nets[k]);
        }
    }
}

/// A maintenance round is stable: a second round over the same interfaces keeps the
/// identifier picked and restarts nothing while the process exists.
pub proof fn lemma_refresh_stable(v: BgpRouterView, cands: Seq<(Ipv4Addr, bool)>)
    ensures
        ({
            let (w, id, _) = refresh_spec(v, cands);
            let (w2, id2, restart2) = refresh_spec(w, cands);
            &&& id2 == id
            &&& w2 == w
            &&& restart2 == (v.config is None)
        }),
{
    let (w, id, _) = refresh_spec(v, cands);
    assert(refresh_spec(w, cands).0 =~= w);
}

/// Whether this speaker, with router identifier `router_id` on local address `local`, keeps
/// the connection it opened when it collides with one opened by the peer `remote_id` at
/// `address`: the higher pair of router identifier and address keeps its own.
pub open spec fn keeps_own(router_id: Ipv4Addr, local: Ipv4Addr, remote_id: Ipv4Addr, address: Ipv4Addr) -> bool {
    router_id.0 > remote_id.0 || (router_id.0 == remote_id.0 && local.0 > address.0)
}

/// Whether a colliding connection survives on this side: the one this speaker opened (to
/// the BGP port) when it keeps its own, else the one the peer opened.
pub open spec fn survives_collision(s: TcpSocket, router_id: Ipv4Addr, remote_id: Ipv4Addr, address: Ipv4Addr) -> bool {
    (s.remote_port == 179) == keeps_own(router_id, s.local_address, remote_id, address)
}

/// Whether a candidate session is established.
pub open spec fn established_pred() -> spec_fn((TcpSocket, bool)) -> bool {
    |e: (TcpSocket, bool)| e.1
}

/// Whether a candidate session survives the collision rule.
pub open spec fn surviving_pred(router_id: Ipv4Addr, remote_id: Ipv4Addr, address: Ipv4Addr) -> spec_fn((TcpSocket, bool)) -> bool {
    |e: (TcpSocket, bool)| survives_collision(e.0, router_id, remote_id, address)
}

/// Whether candidate `i` is the first that satisfies `p`.
pub open spec fn first_where(c: Seq<(TcpSocket, bool)>, p: spec_fn((TcpSocket, bool)) -> bool, i: int) -> bool {
    &&& 0 <= i < c.len()
    &&& p(c[i])
    &&& forall|j: int| 0 <= j < i ==> !p(#[trigger] c[j])
}

/// The connection kept when several sessions with one peer have started: the first
/// established one, else the first that survives the collision rule; none when no
/// candidate qualifies.
pub open spec fn collision_spec(c: Seq<(TcpSocket, bool)>, router_id: Ipv4Addr, remote_id: Ipv4Addr, address: Ipv4Addr) -> Option<TcpSocket> {
    let established = established_pred();
    let surviving = surviving_pred(router_id, remote_id, address);
    if exists|i: int| first_where(c, established, i) {
        Some(c[choose|i: int| first_where(c, established, i)].0)
    } else if exists|i: int| first_where(c, surviving, i) {
        Some(c[choose|i: int| first_where(c, surviving, i)].0)
    } else {
        None
    }
}

/// A first index satisfying a predicate is unique.
proof fn lemma_first_where_unique(c: Seq<(TcpSocket, bool)>, p: spec_fn((TcpSocket, bool)) -> bool, i: int, j: int)
    requires
        first_where(c, p, i),
        first_where(c, p, j),
    ensures
        i == j,
{
    if i < j {
        assert(!p(c[i]));
    } else if j < i {
        assert(!p(c[j]));
    }
}

/// Resolve a connection collision with one peer: among the started sessions, given as
/// sockets with whether each is established, the first established one is kept; otherwise
/// the one the collision rule keeps, comparing this speaker's router identifier and address
/// with the peer's.
pub fn bgp_collision_winner(candidates: &Vec<(TcpSocket, bool)>, router_id: Ipv4Addr, remote_id: Ipv4Addr, address: Ipv4Addr) -> (r: Option<TcpSocket>)
    ensures
        r == collision_spec(candidates@, router_id, remote_id, address),
{
    let ghost c = candidates@;
    let ghost established = established_pred();
    let ghost surviving = surviving_pred(router_id, remote_id, address);
    let mut i: usize = 0;
    while i < candidates.len()
        invariant
            c == candidates@,
            i <= c.len(),
            established == established_pred(),
            forall|j: int| 0 <= j < i ==> !established(#[trigger] c[j]),
        decreases c.len() - i,
    {
        if candidates[i].1 {
            proof {
                assert(first_where(c, established, i as int));
                let k = choose|k: int| first_where(c, established, k);
                lemma_first_where_unique(c, established, i as int, k);
            }
            return Some(candidates[i].0);
        }
        i = i + 1;
    }
    assert(!exists|k: int| first_where(c, established, k));
    let mut j: usize = 0;
    while j < candidates.len()
        invariant
            c == candidates@,
            j <= c.len(),
            surviving == surviving_pred(router_id, remote_id, address),
            !exists|k: int| first_where(c, established_pred(), k),
            forall|k: int| 0 <= k < j ==> !surviving(#[trigger] c[k]),
        decreases c.len() - j,
    {
        let s = candidates[j].0;
        let own = router_id.0 > remote_id.0 || (router_id.0 == remote_id.0 && s.local_address.0 > address.0);
        if (s.remote_port == 179) == own {
            proof {
                assert(surviving(c[j as int]));
                assert(first_where(c, surviving, j as int));
                let k = choose|k: int| first_where(c, surviving, k);
                lemma_first_where_unique(c, surviving, j as int, k);
            }
            return Some(s);
        }
        j = j + 1;
    }
    None
}

/// Both ends of a collision keep the same connection: a connection one speaker opened to the
/// BGP port survives on its side exactly when it survives on the peer's side, provided the
/// two pairs of router identifier and address differ.
pub proof fn lemma_collision_both_ends_agree(s: TcpSocket, router_id: Ipv4Addr, remote_id: Ipv4Addr)
    requires
        s.remote_port == 179,
        s.local_port != 179,
        router_id != remote_id || s.local_address != s.remote_address,
    ensures
        survives_collision(s, router_id, remote_id, s.remote_address) == survives_collision(
            TcpSocket {
                local_address: s.remote_address,
                local_port: s.remote_port,
                remote_address: s.local_address,
                remote_port: s.local_port,
            },
            remote_id,
            router_id,
            s.local_address,
        ),
{
}

} // verus!
