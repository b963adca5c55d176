//! The OSPF process configuration of a device: its process number, the network statements
//! that place interfaces in areas, its router identifier, the passive interfaces, and the
//! default-route and static-route redistribution policies. A routing device runs at most one
//! process; everything but the process itself needs the process to exist.
use crate::device::DeviceError;
use crate::addressing::ipv4_of;
use crate::dhcp::DhcpLeases;
use crate::inventory::{device_wf, routing, slot, up_spec, Device, DeviceView};
use crate::ipv4::{Ipv4Addr, Ipv4InterfaceConfig};
use crate::keyed::keys_unique;
use crate::ospf_external::{OspfDefaultRoute, OspfRedistribute, OSPF_EXTERNAL_METRIC_LIMIT};
use crate::routing::InterfaceId;
use vstd::prelude::*;

verus! {

/// The most network statements a process holds.
pub const OSPF_NETWORK_LIMIT: usize = 1024;

/// A network statement: interfaces whose address matches `address` outside the `wildcard`
/// bits belong to `area`.
#[derive(Debug, Clone, Copy, PartialEq, Eq, Structural)]
pub struct OspfNetworkConfig {
    pub address: Ipv4Addr,
    pub wildcard: Ipv4Addr,
    pub area: u32,
}

/// The configuration of the OSPF process.
#[derive(Debug, Clone)]
pub struct OspfConfig {
    process_id: u16,
    networks: Vec<OspfNetworkConfig>,
    router_id: Option<Ipv4Addr>,
    passive_interfaces: Vec<InterfaceId>,
    default_information: Option<OspfDefaultRoute>,
    redistribute_static: Option<OspfRedistribute>,
}

/// The process configuration as a mathematical value.
pub struct OspfConfigView {
    pub process_id: u16,
    pub networks: Seq<OspfNetworkConfig>,
    pub router_id: Option<Ipv4Addr>,
    pub passive_interfaces: Seq<InterfaceId>,
    pub default_information: Option<OspfDefaultRoute>,
    pub redistribute_static: Option<OspfRedistribute>,
}

impl View for OspfConfig {
    type V = OspfConfigView;

    closed spec fn view(&self) -> OspfConfigView {
        OspfConfigView {
            process_id: self.process_id,
            networks: self.networks@,
            router_id: self.router_id,
            passive_interfaces: self.passive_interfaces@,
            default_information: self.default_information,
            redistribute_static: self.redistribute_static,
        }
    }
}

/// The OSPF process of a device, if it runs one.
#[derive(Debug, Clone)]
pub struct OspfSettings {
    process: Option<OspfConfig>,
}

impl View for OspfSettings {
    type V = Option<OspfConfigView>;

    closed spec fn view(&self) -> Option<OspfConfigView> {
        match self.process {
            Some(c) => Some(c@),
            None => None,
        }
    }
}

/// Whether nothing occurs twice in `s`.
pub open spec fn no_repeats<T>(s: Seq<T>) -> bool {
    forall|i: int, j: int| 0 <= i < j < s.len() ==> s[i] != s[j]
}

/// A process configuration with each network statement and passive interface once, and at
/// most the limit of network statements.
pub open spec fn ospf_config_wf(v: Option<OspfConfigView>) -> bool {
    v matches Some(c) ==> {
        &&& no_repeats(c.networks)
        &&& no_repeats(c.passive_interfaces)
        &&& c.networks.len() <= OSPF_NETWORK_LIMIT
    }
}

/// Whether an address can identify a router: not unspecified, multicast or broadcast.
pub open spec fn router_id_ok(a: Ipv4Addr) -> bool {
    a.0 != 0 && !(0xe000_0000 <= a.0 < 0xf000_0000) && a.0 != 0xffff_ffff
}

/// The process after `set_ospf_process(process_id)` on a device that routes (`supported`):
/// an existing process is renumbered, else a new one starts with nothing configured.
pub open spec fn process_spec(v: Option<OspfConfigView>, process_id: u16, supported: bool) -> (
    Option<OspfConfigView>,
    Result<(), DeviceError>,
) {
    if !supported {
        (v, Err(DeviceError::OspfUnsupported))
    } else if process_id == 0 {
        (v, Err(DeviceError::InvalidOspfProcess))
    } else {
        match v {
            Some(c) => (Some(OspfConfigView { process_id, ..c }), Ok(())),
            None => (
                Some(
                    OspfConfigView {
                        process_id,
                        networks: Seq::empty(),
                        router_id: None,
                        passive_interfaces: Seq::empty(),
                        default_information: None,
                        redistribute_static: None,
                    },
                ),
                Ok(()),
            ),
        }
    }
}

/// Whether `network` is among `networks`.
fn holds_network(networks: &Vec<OspfNetworkConfig>, network: OspfNetworkConfig) -> (r: bool)
    ensures
        r == networks@.contains(network),
{
    let mut i: usize = 0;
    while i < networks.len()
        invariant
            i <= networks@.len(),
            forall|j: int| 0 <= j < i ==> networks@[j] != network,
        decreases networks@.len() - i,
    {
        if networks[i] == network {
            return true;
        }
        i = i + 1;
    }
    false
}

impl OspfSettings {
    /// No OSPF process.
    pub fn new() -> (r: OspfSettings)
        ensures
            r@ is None,
    {
        OspfSettings { process: None }
    }

    /// The process configuration, if there is a process.
    pub fn config(&self) -> (r: Option<&OspfConfig>)
        ensures
            match r {
                Some(c) => self@ == Some(c@),
                None => self@ is None,
            },
    {
        match &self.process {
            Some(c) => Some(c),
            None => None,
        }
    }

    /// Create or select the device's single OSPF process. The device must route.
    pub fn set_ospf_process(&mut self, device: &Device, process_id: u16) -> (r: Result<(), DeviceError>)
        requires
            ospf_config_wf(old(self)@),
        ensures
            ospf_config_wf(final(self)@),
            (final(self)@, r) == process_spec(old(self)@, process_id, routing(device@.device_type)),
    {
        if !device.supports_routing() {
            return Err(DeviceError::OspfUnsupported);
        }
        if process_id == 0 {
            return Err(DeviceError::InvalidOspfProcess);
        }
        match &mut self.process {
            Some(config) => {
                config.process_id = process_id;
            },
            None => {
                self.process = Some(
                    OspfConfig {
                        process_id,
                        networks: Vec::new(),
                        router_id: None,
                        passive_interfaces: Vec::new(),
                        default_information: None,
                        redistribute_static: None,
                    },
                );
                assert(self@.unwrap().networks =~= Seq::<OspfNetworkConfig>::empty());
                assert(self@.unwrap().passive_interfaces =~= Seq::<InterfaceId>::empty());
            },
        }
        Ok(())
    }

    /// Add a network statement to the process; one already there is kept. At most the limit
    /// of statements are held.
    pub fn add_ospf_network(&mut self, network: OspfNetworkConfig) -> (r: Result<(), DeviceError>)
        requires
            ospf_config_wf(old(self)@),
        ensures
            ospf_config_wf(final(self)@),
            match old(self)@ {
                None => r == Err::<(), DeviceError>(DeviceError::InvalidOspfProcess) && final(self)@ == old(self)@,
                Some(c) => if c.networks.contains(network) {
                    r is Ok && final(self)@ == old(self)@
                } else if c.networks.len() >= OSPF_NETWORK_LIMIT {
                    r == Err::<(), DeviceError>(DeviceError::InvalidOspfConfig) && final(self)@ == old(self)@
                } else {
                    r is Ok && final(self)@ == Some(OspfConfigView { networks: c.networks.push(network), ..c })
                },
            },
    {
        let present = match &self.process {
            None => {
                return Err(DeviceError::InvalidOspfProcess);
            },
            Some(config) => holds_network(&config.networks, network),
        };
        if present {
            return Ok(());
        }
        match &mut self.process {
            None => Err(DeviceError::InvalidOspfProcess),
            Some(config) => {
                let ghost before = config.networks@;
                if config.networks.len() >= OSPF_NETWORK_LIMIT {
                    return Err(DeviceError::InvalidOspfConfig);
                }
                config.networks.push(network);
                proof {
                    let after = config.networks@;
                    assert forall|a: int, b: int| 0 <= a < b < after.len() implies after[a] != after[b] by {
                        if b == before.len() {
                            assert(after[a] == before[a]);
                            assert(before.contains(before[a]));
                        } else {
                            assert(after[a] == before[a] && after[b] == before[b]);
                        }
                    }
                }
                Ok(())
            },
        }
    }

    /// Configure the router identifier of the process (none: choose one from the
    /// interfaces). An unspecified, multicast or broadcast address is refused.
    pub fn set_ospf_router_id(&mut self, id: Option<Ipv4Addr>) -> (r: Result<(), DeviceError>)
        requires
            ospf_config_wf(old(self)@),
        ensures
            ospf_config_wf(final(self)@),
            if id matches Some(a) && !router_id_ok(a) {
                r == Err::<(), DeviceError>(DeviceError::InvalidOspfConfig) && final(self)@ == old(self)@
            } else {
                match old(self)@ {
                    None => r == Err::<(), DeviceError>(DeviceError::InvalidOspfProcess) && final(self)@ == old(self)@,
                    Some(c) => r is Ok && final(self)@ == Some(OspfConfigView { router_id: id, ..c }),
                }
            },
    {
        if let Some(a) = id {
            if a.0 == 0 || (0xe000_0000 <= a.0 && a.0 < 0xf000_0000) || a.0 == 0xffff_ffff {
                return Err(DeviceError::InvalidOspfConfig);
            }
        }
        match &mut self.process {
            None => Err(DeviceError::InvalidOspfProcess),
            Some(config) => {
                config.router_id = id;
                Ok(())
            },
        }
    }

    /// Make `interface` of `device` passive (no Hellos, no adjacencies; still a stub
    /// network) or active again.
    pub fn set_ospf_passive(&mut self, device: &Device, interface: InterfaceId, passive: bool) -> (r: Result<(), DeviceError>)
        requires
            ospf_config_wf(old(self)@),
            device_wf(device@),
        ensures
            ospf_config_wf(final(self)@),
            if slot(device@, interface) is None {
                r == Err::<(), DeviceError>(DeviceError::MissingInterface) && final(self)@ == old(self)@
            } else {
                match old(self)@ {
                    None => r == Err::<(), DeviceError>(DeviceError::InvalidOspfProcess) && final(self)@ == old(self)@,
                    Some(c) => {
                        &&& r is Ok
                        &&& final(self)@ matches Some(d)
                        &&& d == OspfConfigView { passive_interfaces: d.passive_interfaces, ..c }
                        &&& forall|x: InterfaceId|
                            #[trigger] d.passive_interfaces.contains(x) <==> if x == interface {
                                passive
                            } else {
                                c.passive_interfaces.contains(x)
                            }
                    },
                }
            },
    {
        if device.interface(interface).is_none() {
            return Err(DeviceError::MissingInterface);
        }
        match &mut self.process {
            None => Err(DeviceError::InvalidOspfProcess),
            Some(config) => {
                let ghost before = config.passive_interfaces@;
                let mut kept: Vec<InterfaceId> = Vec::new();
                let mut i: usize = 0;
                while i < config.passive_interfaces.len()
                    invariant
                        i <= before.len(),
                        config.passive_interfaces@ == before,
                        no_repeats(before),
                        no_repeats(kept@),
                        forall|x: InterfaceId|
                            #[trigger] kept@.contains(x) <==> x != interface && exists|j: int|
                                0 <= j < i && before[j] == x,
                    decreases before.len() - i,
                {
                    let p = config.passive_interfaces[i];
                    if p.0 != interface.0 {
                        proof {
                            assert(!kept@.contains(p)) by {
                                if kept@.contains(p) {
                                    let j = choose|j: int| 0 <= j < i && before[j] == p;
                                    assert(before[j] == before[i as int]);
                                }
                            }
                        }
                        let ghost k0 = kept@;
                        kept.push(p);
                        proof {
                            assert forall|a: int, b: int| 0 <= a < b < kept@.len() implies kept@[a] != kept@[b] by {
                                if b == k0.len() {
                                    assert(kept@[a] == k0[a]);
                                    assert(k0.contains(k0[a]));
                                } else {
                                    assert(kept@[a] == k0[a] && kept@[b] == k0[b]);
                                }
                            }
                            assert forall|x: InterfaceId| #[trigger] kept@.contains(x) <==> x != interface && exists|j: int|
                                0 <= j < i + 1 && before[j] == x by {
                                if kept@.contains(x) && x != p {
                                    let k = choose|k: int| 0 <= k < kept@.len() && kept@[k] == x;
                                    assert(k0[k] == x);
                                    assert(k0.contains(x));
                                }
                                if x != interface && exists|j: int| 0 <= j < i + 1 && before[j] == x {
                                    if x == p {
                                        assert(kept@[k0.len() as int] == x);
                                    } else {
                                        let j = choose|j: int| 0 <= j < i + 1 && before[j] == x;
                                        assert(j != i);
                                        assert(k0.contains(x));
                                        let k = choose|k: int| 0 <= k < k0.len() && k0[k] == x;
                                        assert(kept@[k] == x);
                                    }
                                }
                            }
                        }
                    } else {
                        proof {
                            assert forall|x: InterfaceId| #[trigger] kept@.contains(x) <==> x != interface && exists|j: int|
                                0 <= j < i + 1 && before[j] == x by {
                                if x != interface && exists|j: int| 0 <= j < i + 1 && before[j] == x {
                                    let j = choose|j: int| 0 <= j < i + 1 && before[j] == x;
                                    assert(j != i);
                                }
                            }
                        }
                    }
                    i = i + 1;
                }
                if passive {
                    proof {
                        assert(!kept@.contains(interface));
                    }
                    let ghost k0 = kept@;
                    kept.push(interface);
                    proof {
                        assert forall|a: int, b: int| 0 <= a < b < kept@.len() implies kept@[a] != kept@[b] by {
                            if b == k0.len() {
                                assert(kept@[a] == k0[a]);
                                assert(k0.contains(k0[a]));
                            } else {
                                assert(kept@[a] == k0[a] && kept@[b] == k0[b]);
                            }
                        }
                        assert forall|x: InterfaceId| #[trigger] kept@.contains(x) <==> (x == interface || k0.contains(x)) by {
                            if kept@.contains(x) && x != interface {
                                let k = choose|k: int| 0 <= k < kept@.len() && kept@[k] == x;
                                assert(k0[k] == x);
                            }
                            if x == interface {
                                assert(kept@[k0.len() as int] == x);
                            }
                            if k0.contains(x) {
                                let k = choose|k: int| 0 <= k < k0.len() && k0[k] == x;
                                assert(kept@[k] == x);
                            }
                        }
                    }
                }
                config.passive_interfaces = kept;
                Ok(())
            },
        }
    }

    /// Enable (`Some`) or remove default-route origination. A metric at or above the limit
    /// is refused.
    pub fn set_ospf_default(&mut self, policy: Option<OspfDefaultRoute>) -> (r: Result<(), DeviceError>)
        requires
            ospf_config_wf(old(self)@),
        ensures
            ospf_config_wf(final(self)@),
            if policy matches Some(p) && p.metric >= OSPF_EXTERNAL_METRIC_LIMIT {
                r == Err::<(), DeviceError>(DeviceError::InvalidOspfConfig) && final(self)@ == old(self)@
            } else {
                match old(self)@ {
                    None => r == Err::<(), DeviceError>(DeviceError::InvalidOspfProcess) && final(self)@ == old(self)@,
                    Some(c) => r is Ok && final(self)@ == Some(OspfConfigView { default_information: policy, ..c }),
                }
            },
    {
        if let Some(p) = policy {
            if p.metric >= OSPF_EXTERNAL_METRIC_LIMIT {
                return Err(DeviceError::InvalidOspfConfig);
            }
        }
        match &mut self.process {
            None => Err(DeviceError::InvalidOspfProcess),
            Some(config) => {
                config.default_information = policy;
                Ok(())
            },
        }
    }

    /// Redistribute (`Some`) static routes other than the default route, or stop. A metric
    /// at or above the limit is refused.
    pub fn set_ospf_redistribute_static(&mut self, policy: Option<OspfRedistribute>) -> (r: Result<(), DeviceError>)
        requires
            ospf_config_wf(old(self)@),
        ensures
            ospf_config_wf(final(self)@),
            if policy matches Some(p) && p.metric >= OSPF_EXTERNAL_METRIC_LIMIT {
                r == Err::<(), DeviceError>(DeviceError::InvalidOspfConfig) && final(self)@ == old(self)@
            } else {
                match old(self)@ {
                    None => r == Err::<(), DeviceError>(DeviceError::InvalidOspfProcess) && final(self)@ == old(self)@,
                    Some(c) => r is Ok && final(self)@ == Some(OspfConfigView { redistribute_static: policy, ..c }),
                }
            },
    {
        if let Some(p) = policy {
            if p.metric >= OSPF_EXTERNAL_METRIC_LIMIT {
                return Err(DeviceError::InvalidOspfConfig);
            }
        }
        match &mut self.process {
            None => Err(DeviceError::InvalidOspfProcess),
            Some(config) => {
                config.redistribute_static = policy;
                Ok(())
            },
        }
    }
}

impl OspfConfig {
    /// The process number.
    pub fn process_id(&self) -> (r: u16)
        ensures
            r == self@.process_id,
    {
        self.process_id
    }

    /// The network statements, in the order they were added.
    pub fn networks(&self) -> (r: &[OspfNetworkConfig])
        ensures
            r@ == self@.networks,
    {
        self.networks.as_slice()
    }

    /// The configured router identifier.
    pub fn router_id(&self) -> (r: Option<Ipv4Addr>)
        ensures
            r == self@.router_id,
    {
        self.router_id
    }

    /// The passive interfaces.
    pub fn passive_interfaces(&self) -> (r: &[InterfaceId])
        ensures
            r@ == self@.passive_interfaces,
    {
        self.passive_interfaces.as_slice()
    }

    /// The default-route origination policy.
    pub fn default_information(&self) -> (r: Option<OspfDefaultRoute>)
        ensures
            r == self@.default_information,
    {
        self.default_information
    }

    /// The static-route redistribution policy.
    pub fn redistribute_static(&self) -> (r: Option<OspfRedistribute>)
        ensures
            r == self@.redistribute_static,
    {
        self.redistribute_static
    }
}

/// The number of one bits among the lowest `i` bits of `x`.
pub open spec fn ones_below(x: u32, i: nat) -> nat
    decreases i,
{
    if i == 0 {
        0
    } else {
        ones_below(x, (i - 1) as nat) + ((x >> ((i - 1) as u32)) & 1u32) as nat
    }
}

/// The number of one bits of `x`.
pub open spec fn ones(x: u32) -> nat {
    ones_below(x, 32)
}

/// Whether network statement `n` matches address `a`: they agree outside the wildcard bits.
pub open spec fn network_matches(n: OspfNetworkConfig, a: u32) -> bool {
    a & !n.wildcard.0 == n.address.0 & !n.wildcard.0
}

/// The order network statements are tried in: fewer wildcard bits first, then by address,
/// wildcard and area.
pub open spec fn network_before(m: OspfNetworkConfig, n: OspfNetworkConfig) -> bool {
    ||| ones(m.wildcard.0) < ones(n.wildcard.0)
    ||| ones(m.wildcard.0) == ones(n.wildcard.0) && m.address.0 < n.address.0
    ||| ones(m.wildcard.0) == ones(n.wildcard.0) && m.address.0 == n.address.0 && m.wildcard.0 < n.wildcard.0
    ||| ones(m.wildcard.0) == ones(n.wildcard.0) && m.address.0 == n.address.0 && m.wildcard.0 == n.wildcard.0
        && m.area < n.area
}

/// Whether statement `k` of `ns` is the first in order among those matching `a`.
pub open spec fn first_match(ns: Seq<OspfNetworkConfig>, a: u32, k: int) -> bool {
    &&& 0 <= k < ns.len()
    &&& network_matches(ns[k], a)
    &&& forall|j: int| 0 <= j < ns.len() && network_matches(#[trigger] ns[j], a) ==> !network_before(ns[j], ns[k])
}

/// The area of address `a` under the statements `ns`: that of the first matching statement.
pub open spec fn area_of(ns: Seq<OspfNetworkConfig>, a: u32) -> Option<u32> {
    if exists|k: int| first_match(ns, a, k) {
        Some(ns[choose|k: int| first_match(ns, a, k)].area)
    } else {
        None
    }
}

/// The interfaces among the first `k` of a device that take part in OSPF, with their
/// addresses and areas: those with an address in an area whose protocol is up.
pub open spec fn active_upto(
    v: DeviceView,
    l: Seq<(crate::routing::InterfaceId, crate::dhcp::DhcpLease)>,
    ns: Seq<OspfNetworkConfig>,
    k: int,
) -> Seq<(InterfaceId, (u32, u8), u32)>
    decreases k,
{
    if k <= 0 {
        Seq::empty()
    } else {
        let rest = active_upto(v, l, ns, k - 1);
        let id = InterfaceId(k as u64);
        match ipv4_of(v, l, id) {
            Some(ip) => match area_of(ns, ip.0) {
                Some(area) => if up_spec(v, id) {
                    rest.push((id, ip, area))
                } else {
                    rest
                },
                None => rest,
            },
            None => rest,
        }
    }
}

/// Active interfaces as numbers.
pub open spec fn active_view(s: Seq<(InterfaceId, Ipv4InterfaceConfig, u32)>) -> Seq<(InterfaceId, (u32, u8), u32)> {
    s.map_values(|e: (InterfaceId, Ipv4InterfaceConfig, u32)| (e.0, e.1@, e.2))
}

fn count_ones(x: u32) -> (r: u32)
    ensures
        r == ones(x),
{
    let mut c: u32 = 0;
    let mut i: u32 = 0;
    while i < 32
        invariant
            i <= 32,
            c == ones_below(x, i as nat),
            c <= i,
        decreases 32 - i,
    {
        let bit = (x >> i) & 1;
        assert(bit <= 1) by (bit_vector)
            requires
                bit == (x >> i) & 1,
        ;
        c = c + bit;
        i = i + 1;
    }
    c
}

/// Where the first statement of `ns` matching `a` is, if one matches.
fn first_match_index(ns: &Vec<OspfNetworkConfig>, a: u32) -> (r: Option<usize>)
    ensures
        r matches Some(k) ==> first_match(ns@, a, k as int),
        r is None ==> forall|j: int| 0 <= j < ns@.len() ==> !network_matches(#[trigger] ns@[j], a),
{
    let mut best: Option<usize> = None;
    let mut best_ones: u32 = 0;
    let mut i: usize = 0;
    while i < ns.len()
        invariant
            i <= ns@.len(),
            best is None ==> forall|j: int| 0 <= j < i ==> !network_matches(#[trigger] ns@[j], a),
            best matches Some(b) ==> {
                &&& b < i
                &&& network_matches(ns@[b as int], a)
                &&& best_ones == ones(ns@[b as int].wildcard.0)
                &&& forall|j: int| 0 <= j < i && network_matches(#[trigger] ns@[j], a) ==> !network_before(ns@[j], ns@[b as int])
            },
        decreases ns@.len() - i,
    {
        let n = ns[i];
        if a & !n.wildcard.0 == n.address.0 & !n.wildcard.0 {
            let count = count_ones(n.wildcard.0);
            let take = match best {
                None => true,
                Some(b) => {
                    let m = ns[b];
                    count < best_ones || (count == best_ones && (n.address.0 < m.address.0 || (n.address.0
                        == m.address.0 && (n.wildcard.0 < m.wildcard.0 || (n.wildcard.0 == m.wildcard.0
                        && n.area < m.area)))))
                },
            };
            if take {
                best = Some(i);
                best_ones = count;
            }
        }
        i = i + 1;
    }
    best
}

/// At most one statement is the first match: statements occur once.
proof fn lemma_first_match_unique(ns: Seq<OspfNetworkConfig>, a: u32, k1: int, k2: int)
    requires
        no_repeats(ns),
        first_match(ns, a, k1),
        first_match(ns, a, k2),
    ensures
        k1 == k2,
{
    if k1 != k2 {
        assert(!network_before(ns[k1], ns[k2]));
        assert(!network_before(ns[k2], ns[k1]));
        assert(ns[k1] == ns[k2]);
        if k1 < k2 {
            assert(ns[k1] != ns[k2]);
        } else {
            assert(ns[k2] != ns[k1]);
        }
    }
}

impl OspfSettings {
    /// The interfaces of `device` that take part in OSPF, in interface order, with their
    /// addresses (configured or leased from `leases`) and areas: each with an address that
    /// a network statement places in an area, the most specific statement deciding, whose
    /// protocol is up. Without a process there are none.
    pub fn ospf_interfaces(&self, device: &Device, leases: &DhcpLeases) -> (r: Vec<(InterfaceId, Ipv4InterfaceConfig, u32)>)
        requires
            ospf_config_wf(self@),
            device_wf(device@),
            keys_unique(leases@),
        ensures
            active_view(r@) == match self@ {
                None => Seq::empty(),
                Some(c) => active_upto(device@, leases@, c.networks, device@.interfaces.len() as int),
            },
    {
        let mut out: Vec<(InterfaceId, Ipv4InterfaceConfig, u32)> = Vec::new();
        let config = match &self.process {
            None => {
                assert(active_view(out@) =~= Seq::<(InterfaceId, (u32, u8), u32)>::empty());
                return out;
            },
            Some(c) => c,
        };
        let ghost ns = config.networks@;
        let count = device.interface_count();
        let mut k: usize = 0;
        while k < count
            invariant
                k <= count,
                count == device@.interfaces.len(),
                ns == config.networks@,
                no_repeats(ns),
                device_wf(device@),
                keys_unique(leases@),
                active_view(out@) == active_upto(device@, leases@, ns, k as int),
            decreases count - k,
        {
            let id = InterfaceId((k + 1) as u64);
            let ghost before = active_view(out@);
            assert(active_upto(device@, leases@, ns, k + 1) == {
                let rest = active_upto(device@, leases@, ns, k as int);
                match ipv4_of(device@, leases@, id) {
                    Some(ip) => match area_of(ns, ip.0) {
                        Some(area) => if up_spec(device@, id) {
                            rest.push((id, ip, area))
                        } else {
                            rest
                        },
                        None => rest,
                    },
                    None => rest,
                }
            });
            match device.interface_ipv4(leases, id) {
                None => {},
                Some(ip) => {
                    match first_match_index(&config.networks, ip.address().0) {
                        None => {
                            assert(area_of(ns, ip@.0) is None);
                        },
                        Some(b) => {
                            let area = config.networks[b].area;
                            proof {
                                let c = choose|j: int| first_match(ns, ip@.0, j);
                                lemma_first_match_unique(ns, ip@.0, b as int, c);
                                assert(area_of(ns, ip@.0) == Some(area));
                            }
                            if device.protocol_up(id) {
                                out.push((id, ip, area));
                                proof {
                                    assert(active_view(out@) =~= before.push((id, ip@, area)));
                                }
                            }
                        },
                    }
                },
            }
            k = k + 1;
        }
        out
    }
}

} // verus!
