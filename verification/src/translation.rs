//! Address translation: static address and port mappings, deterministic dynamic pool and
//! port translation with expiry, and its accounting.
use crate::device::DeviceError;
use crate::ipv4::{in_prefix, mask_bits, Ipv4Addr, Ipv4Network};
use crate::acl::{acl_wf, AccessListId, AclTable};
use crate::keyed::{has_key, keys_unique, lemma_key_index, lemma_put_unique, put, value_of};
use crate::routing::InterfaceId;
use crate::decimal::decimal_text;
use crate::report::{finish, push_number, push_str, push_wide_number};
use vstd::prelude::*;
use vstd::string::StringSliceAdditionalSpecFns;

verus! {

/// How long an idle dynamic translation lives, in microseconds.
pub const NAT_TIMEOUT_US: u64 = 60_000_000;

/// First port handed out by port translation.
pub const NAT_PORT_FIRST: u16 = 10_000;

/// Last port handed out by port translation.
pub const NAT_PORT_LAST: u16 = 60_000;

/// Number of ports port translation cycles through.
pub const NAT_PORT_SPAN: u32 = 50_001;

/// Largest number of dynamic translations.
pub const MAX_TRANSLATIONS: usize = 16384;

/// Transport discriminator in the NAT table.
#[derive(Debug, Clone, Copy, PartialEq, Eq, Structural)]
pub enum NatProtocol {
    Icmp,
    Udp,
    Tcp,
}

/// A translation decision, including allocation failures that must not leak private traffic.
#[derive(Debug, Clone, Copy, PartialEq, Eq, Structural)]
pub enum NatOutcome {
    Unchanged,
    Translated,
    Drop,
}

/// Cumulative deterministic NAT accounting.
#[derive(Debug, Clone, Copy, Default, PartialEq, Eq, Structural)]
pub struct NatStatistics {
    pub hits: u64,
    pub misses: u64,
    pub allocations: u64,
    pub expired: u64,
    pub drops: u64,
}

/// Transport of a static port mapping.
#[derive(Debug, Clone, Copy, PartialEq, Eq, Structural)]
pub enum NatTransport {
    Tcp,
    Udp,
}

/// A configured static translation of an address, or of one transport port of it.
#[derive(Debug, Clone, Copy, PartialEq, Eq, Structural)]
pub enum StaticNat {
    Address { local: Ipv4Addr, global: Ipv4Addr },
    Port {
        protocol: NatTransport,
        local: Ipv4Addr,
        local_port: u16,
        global: Ipv4Addr,
        global_port: u16,
    },
}

/// Inside address of a static mapping.
pub open spec fn static_local(rule: StaticNat) -> Ipv4Addr {
    match rule {
        StaticNat::Address { local, .. } => local,
        StaticNat::Port { local, .. } => local,
    }
}

/// Outside address of a static mapping.
pub open spec fn static_global(rule: StaticNat) -> Ipv4Addr {
    match rule {
        StaticNat::Address { global, .. } => global,
        StaticNat::Port { global, .. } => global,
    }
}

impl StaticNat {
    /// Inside address of the mapping.
    pub fn local(self) -> (r: Ipv4Addr)
        ensures
            r == static_local(self),
    {
        match self {
            StaticNat::Address { local, .. } => local,
            StaticNat::Port { local, .. } => local,
        }
    }

    /// Outside address of the mapping.
    pub fn global(self) -> (r: Ipv4Addr)
        ensures
            r == static_global(self),
    {
        match self {
            StaticNat::Address { global, .. } => global,
            StaticNat::Port { global, .. } => global,
        }
    }
}

/// An inclusive range of outside addresses for dynamic translation, inside one subnet of
/// `prefix_len` bits.
#[derive(Debug, Clone, Copy, PartialEq, Eq, Structural)]
pub struct NatPool {
    pub first: Ipv4Addr,
    pub last: Ipv4Addr,
    pub prefix_len: u8,
}

/// Where dynamic translation takes its outside address from: a pool, or the outside
/// interface's own address, if it has one.
#[derive(Debug, Clone, Copy, PartialEq, Eq, Structural)]
pub enum GlobalSource {
    Pool(NatPool),
    Interface(Option<Ipv4Addr>),
}

/// One direction of a transport conversation: its protocol, the address and port on this
/// side of the translator, and the outside peer's address and port.
#[derive(Debug, Clone, Copy, PartialEq, Eq, Structural)]
pub struct NatFlow {
    pub protocol: NatProtocol,
    pub address: Ipv4Addr,
    pub port: u16,
    pub peer_address: Ipv4Addr,
    pub peer_port: u16,
}

/// One expiring dynamic transport mapping.
#[derive(Debug, Clone, Copy, PartialEq, Eq, Structural)]
pub struct NatTranslation {
    pub protocol: NatProtocol,
    pub inside_local_address: Ipv4Addr,
    pub inside_local_port: u16,
    pub inside_global_address: Ipv4Addr,
    pub inside_global_port: u16,
    pub outside_global_address: Ipv4Addr,
    pub outside_global_port: u16,
    pub expires_at: u64,
}

/// The dynamic translations of a router, its counters, and the next port to hand out.
#[derive(Debug)]
pub struct NatTable {
    translations: Vec<NatTranslation>,
    statistics: NatStatistics,
    next_port: u16,
}

/// A translation table as a mathematical value.
#[verifier::ext_equal]
pub struct NatTableView {
    pub translations: Seq<NatTranslation>,
    pub statistics: NatStatistics,
    pub next_port: u16,
}

impl View for NatTable {
    type V = NatTableView;

    closed spec fn view(&self) -> NatTableView {
        NatTableView {
            translations: self.translations@,
            statistics: self.statistics,
            next_port: self.next_port,
        }
    }
}

/// A table whose next port lies in the translation range.
pub open spec fn nat_wf(v: NatTableView) -> bool {
    NAT_PORT_FIRST <= v.next_port <= NAT_PORT_LAST
}

/// `a + b`, saturating at the largest counter value.
pub open spec fn bump(a: u64, b: u64) -> u64 {
    if a + b > u64::MAX {
        u64::MAX
    } else {
        (a + b) as u64
    }
}

/// The expiry time of a translation used at `now`.
pub open spec fn refreshed(now: u64) -> u64 {
    bump(now, NAT_TIMEOUT_US)
}

/// The translations still alive at `now`, in order.
pub open spec fn unexpired(ts: Seq<NatTranslation>, now: u64) -> Seq<NatTranslation>
    decreases ts.len(),
{
    if ts.len() == 0 {
        ts
    } else {
        let rest = unexpired(ts.drop_last(), now);
        if ts.last().expires_at > now {
            rest.push(ts.last())
        } else {
            rest
        }
    }
}

/// The table after dropping the translations that expired by `now`, counting them.
pub open spec fn expire_spec(v: NatTableView, now: u64) -> NatTableView {
    let kept = unexpired(v.translations, now);
    NatTableView {
        translations: kept,
        statistics: NatStatistics {
            expired: bump(v.statistics.expired, (v.translations.len() - kept.len()) as u64),
            ..v.statistics
        },
        ..v
    }
}

/// The table after one dropped packet is counted.
pub open spec fn count_drop(v: NatTableView) -> NatTableView {
    NatTableView { statistics: NatStatistics { drops: bump(v.statistics.drops, 1), ..v.statistics }, ..v }
}

/// The port handed out after `port`, wrapping from the last to the first.
pub open spec fn port_after(port: u16) -> u16 {
    if port >= NAT_PORT_LAST {
        NAT_PORT_FIRST
    } else {
        (port + 1) as u16
    }
}

/// The port tried `k` steps after `start`.
pub open spec fn nth_port(start: u16, k: nat) -> u16
    decreases k,
{
    if k == 0 {
        start
    } else {
        port_after(nth_port(start, (k - 1) as nat))
    }
}

/// Whether a port is taken by a dynamic translation or a static port mapping.
pub open spec fn port_in_use(ts: Seq<NatTranslation>, rules: Seq<StaticNat>, port: u16) -> bool {
    ||| exists|i: int| 0 <= i < ts.len() && (#[trigger] ts[i]).inside_global_port == port
    ||| exists|k: int|
        0 <= k < rules.len() && (#[trigger] rules[k] matches StaticNat::Port { global_port, .. }
            && global_port == port)
}

/// Whether the `k`-th port tried from `start` is the first free one.
pub open spec fn first_free_port(ts: Seq<NatTranslation>, rules: Seq<StaticNat>, start: u16, k: nat) -> bool {
    &&& k < NAT_PORT_SPAN
    &&& !port_in_use(ts, rules, nth_port(start, k))
    &&& forall|j: nat| j < k ==> port_in_use(ts, rules, #[trigger] nth_port(start, j))
}

/// The port handed out from `start`, if one is free, and the next port to try afterwards.
pub open spec fn port_allocation(ts: Seq<NatTranslation>, rules: Seq<StaticNat>, start: u16) -> (
    Option<u16>,
    u16,
) {
    if exists|k: nat| first_free_port(ts, rules, start, k) {
        let k = choose|k: nat| first_free_port(ts, rules, start, k);
        (Some(nth_port(start, k)), port_after(nth_port(start, k)))
    } else {
        (None, nth_port(start, NAT_PORT_SPAN as nat))
    }
}

/// Whether translation `i` maps `local` into the pool.
pub open spec fn pool_holds(ts: Seq<NatTranslation>, pool: NatPool, local: Ipv4Addr, i: int) -> bool {
    &&& 0 <= i < ts.len()
    &&& ts[i].inside_local_address == local
    &&& pool.first.0 <= ts[i].inside_global_address.0 <= pool.last.0
}

/// Whether a pool address may be handed out: no static mapping uses it, and without port
/// translation no dynamic translation uses it either.
pub open spec fn pool_free(ts: Seq<NatTranslation>, rules: Seq<StaticNat>, overload: bool, a: u32) -> bool {
    &&& forall|k: int| 0 <= k < rules.len() ==> static_global(#[trigger] rules[k]).0 != a
    &&& overload || forall|i: int| 0 <= i < ts.len() ==> (#[trigger] ts[i]).inside_global_address.0 != a
}

/// The outside address a pool gives `local`: the one a translation of `local` already
/// holds (the first such), else the lowest free pool address.
pub open spec fn pool_address_spec(
    ts: Seq<NatTranslation>,
    rules: Seq<StaticNat>,
    pool: NatPool,
    local: Ipv4Addr,
    overload: bool,
) -> Option<Ipv4Addr> {
    if exists|i: int| pool_holds(ts, pool, local, i) {
        let i = choose|i: int|
            pool_holds(ts, pool, local, i) && forall|j: int| 0 <= j < i ==> !#[trigger] pool_holds(ts, pool, local, j);
        Some(ts[i].inside_global_address)
    } else if exists|a: u32| pool.first.0 <= a <= pool.last.0 && #[trigger] pool_free(ts, rules, overload, a) {
        let a = choose|a: u32|
            pool.first.0 <= a <= pool.last.0 && #[trigger] pool_free(ts, rules, overload, a) && forall|b: u32|
                pool.first.0 <= b < a ==> !#[trigger] pool_free(ts, rules, overload, b);
        Some(Ipv4Addr(a))
    } else {
        None
    }
}

/// Whether translation `i` carries outbound `flow`.
pub open spec fn carries_outbound(ts: Seq<NatTranslation>, flow: NatFlow, i: int) -> bool {
    &&& 0 <= i < ts.len()
    &&& ts[i].protocol == flow.protocol
    &&& ts[i].inside_local_address == flow.address
    &&& ts[i].inside_local_port == flow.port
    &&& ts[i].outside_global_address == flow.peer_address
    &&& ts[i].outside_global_port == flow.peer_port
}

/// Whether translation `i` carries inbound `flow`, addressed to an outside address.
pub open spec fn carries_inbound(ts: Seq<NatTranslation>, flow: NatFlow, i: int) -> bool {
    &&& 0 <= i < ts.len()
    &&& ts[i].protocol == flow.protocol
    &&& ts[i].inside_global_address == flow.address
    &&& ts[i].inside_global_port == flow.port
    &&& ts[i].outside_global_address == flow.peer_address
    &&& ts[i].outside_global_port == flow.peer_port
}

/// The first translation carrying outbound `flow`.
pub open spec fn outbound_index(ts: Seq<NatTranslation>, flow: NatFlow) -> int {
    choose|i: int| carries_outbound(ts, flow, i) && forall|j: int| 0 <= j < i ==> !#[trigger] carries_outbound(ts, flow, j)
}

/// The first translation carrying inbound `flow`.
pub open spec fn inbound_index(ts: Seq<NatTranslation>, flow: NatFlow) -> int {
    choose|i: int| carries_inbound(ts, flow, i) && forall|j: int| 0 <= j < i ==> !#[trigger] carries_inbound(ts, flow, j)
}

/// The table and the outside address and port for outbound `flow` at `now`, after expiry:
/// an existing translation is refreshed; otherwise a new one takes an outside address from
/// `source` and, with port translation (`overload`), the next free port, else the flow's own
/// port. `None` is a drop, and counted.
pub open spec fn outbound_spec(
    v: NatTableView,
    flow: NatFlow,
    source: GlobalSource,
    overload: bool,
    rules: Seq<StaticNat>,
    now: u64,
) -> (NatTableView, Option<(Ipv4Addr, u16)>) {
    let e = expire_spec(v, now);
    let ts = e.translations;
    if exists|i: int| carries_outbound(ts, flow, i) {
        let i = outbound_index(ts, flow);
        let t = ts[i];
        (
            NatTableView {
                translations: ts.update(i, NatTranslation { expires_at: refreshed(now), ..t }),
                ..e
            },
            Some((t.inside_global_address, t.inside_global_port)),
        )
    } else if ts.len() >= MAX_TRANSLATIONS {
        (count_drop(e), None)
    } else {
        let global = match source {
            GlobalSource::Pool(pool) => pool_address_spec(ts, rules, pool, flow.address, overload),
            GlobalSource::Interface(address) => address,
        };
        match global {
            None => (count_drop(e), None),
            Some(g) => {
                let allocated = if overload {
                    port_allocation(ts, rules, e.next_port)
                } else {
                    (Some(flow.port), e.next_port)
                };
                match allocated.0 {
                    None => (count_drop(NatTableView { next_port: allocated.1, ..e }), None),
                    Some(p) => (
                        NatTableView {
                            translations: ts.push(
                                NatTranslation {
                                    protocol: flow.protocol,
                                    inside_local_address: flow.address,
                                    inside_local_port: flow.port,
                                    inside_global_address: g,
                                    inside_global_port: p,
                                    outside_global_address: flow.peer_address,
                                    outside_global_port: flow.peer_port,
                                    expires_at: refreshed(now),
                                },
                            ),
                            statistics: NatStatistics {
                                allocations: bump(e.statistics.allocations, 1),
                                ..e.statistics
                            },
                            next_port: allocated.1,
                        },
                        Some((g, p)),
                    ),
                }
            },
        }
    }
}

/// The table and the inside address and port for inbound `flow` at `now`, after expiry:
/// the first matching translation is refreshed; with none, a miss is counted.
pub open spec fn inbound_spec(v: NatTableView, flow: NatFlow, now: u64) -> (
    NatTableView,
    Option<(Ipv4Addr, u16)>,
) {
    let e = expire_spec(v, now);
    let ts = e.translations;
    if exists|i: int| carries_inbound(ts, flow, i) {
        let i = inbound_index(ts, flow);
        let t = ts[i];
        (
            NatTableView {
                translations: ts.update(i, NatTranslation { expires_at: refreshed(now), ..t }),
                ..e
            },
            Some((t.inside_local_address, t.inside_local_port)),
        )
    } else {
        (
            NatTableView {
                statistics: NatStatistics { misses: bump(e.statistics.misses, 1), ..e.statistics },
                ..e
            },
            None,
        )
    }
}

/// Whether a static mapping applies to a packet whose inside address (outbound, `source`)
/// or outside address (inbound) is `address`, and whose transport and port on that side
/// are `transport`.
pub open spec fn static_applies(
    rule: StaticNat,
    address: Ipv4Addr,
    transport: Option<(NatProtocol, u16)>,
    source: bool,
) -> bool {
    &&& (if source {
        static_local(rule)
    } else {
        static_global(rule)
    }) == address
    &&& match rule {
        StaticNat::Address { .. } => true,
        StaticNat::Port { protocol, local_port, global_port, .. } => match transport {
            Some((kind, port)) => kind == (if protocol == NatTransport::Tcp {
                NatProtocol::Tcp
            } else {
                NatProtocol::Udp
            }) && port == (if source {
                local_port
            } else {
                global_port
            }),
            None => false,
        },
    }
}

/// The address and port a static mapping rewrites to.
pub open spec fn static_target(rule: StaticNat, source: bool) -> (Ipv4Addr, Option<u16>) {
    (
        if source {
            static_global(rule)
        } else {
            static_local(rule)
        },
        match rule {
            StaticNat::Address { .. } => None,
            StaticNat::Port { local_port, global_port, .. } => Some(
                if source {
                    global_port
                } else {
                    local_port
                },
            ),
        },
    )
}

/// Whether `address` is an outside address of a static mapping or of a dynamic translation.
pub open spec fn owns_spec(ts: Seq<NatTranslation>, rules: Seq<StaticNat>, address: Ipv4Addr) -> bool {
    ||| exists|k: int| 0 <= k < rules.len() && static_global(#[trigger] rules[k]) == address
    ||| exists|i: int| 0 <= i < ts.len() && (#[trigger] ts[i]).inside_global_address == address
}

proof fn lemma_first_port_unique(ts: Seq<NatTranslation>, rules: Seq<StaticNat>, start: u16, a: nat, b: nat)
    requires
        first_free_port(ts, rules, start, a),
        first_free_port(ts, rules, start, b),
    ensures
        a == b,
{
    if a < b {
        assert(port_in_use(ts, rules, nth_port(start, a)));
    } else if b < a {
        assert(port_in_use(ts, rules, nth_port(start, b)));
    }
}

proof fn lemma_unexpired_members(ts: Seq<NatTranslation>, now: u64)
    ensures
        forall|i: int| 0 <= i < unexpired(ts, now).len() ==> ts.contains(#[trigger] unexpired(ts, now)[i]),
    decreases ts.len(),
{
    if ts.len() > 0 {
        let init = ts.drop_last();
        lemma_unexpired_members(init, now);
        let rest = unexpired(init, now);
        assert forall|i: int| 0 <= i < unexpired(ts, now).len() implies ts.contains(
            #[trigger] unexpired(ts, now)[i],
        ) by {
            if i < rest.len() {
                assert(unexpired(ts, now)[i] == rest[i]);
                assert(init.contains(rest[i]));
                let j = choose|j: int| 0 <= j < init.len() && init[j] == rest[i];
                assert(ts[j] == init[j]);
            } else {
                assert(unexpired(ts, now)[i] == ts[ts.len() - 1]);
            }
        }
    }
}

/// Port translation round trip: when an outbound flow gets a new translation with port
/// translation, a reply from its outside peer to the outside address and port it was given,
/// arriving before the translation expires, maps back to the flow's inside address and port.
pub proof fn lemma_pat_round_trip(
    v: NatTableView,
    flow: NatFlow,
    source: GlobalSource,
    rules: Seq<StaticNat>,
    now: u64,
    reply_at: u64,
)
    requires
        nat_wf(v),
        !exists|i: int| carries_outbound(expire_spec(v, now).translations, flow, i),
        outbound_spec(v, flow, source, true, rules, now).1 is Some,
        reply_at < refreshed(now),
    ensures
        ({
            let (after, mapping) = outbound_spec(v, flow, source, true, rules, now);
            let (global, port) = mapping->Some_0;
            let reply = NatFlow {
                protocol: flow.protocol,
                address: global,
                port,
                peer_address: flow.peer_address,
                peer_port: flow.peer_port,
            };
            inbound_spec(after, reply, reply_at).1 == Some((flow.address, flow.port))
        }),
{
    let e = expire_spec(v, now);
    let ts = e.translations;
    let (after, mapping) = outbound_spec(v, flow, source, true, rules, now);
    let (global, port) = mapping->Some_0;
    let allocated = port_allocation(ts, rules, e.next_port);
    assert(allocated.0 == Some(port));
    let k = choose|k: nat| first_free_port(ts, rules, e.next_port, k);
    assert(!port_in_use(ts, rules, port));
    let fresh = after.translations[after.translations.len() - 1];
    assert(after.translations == ts.push(fresh));
    let reply = NatFlow {
        protocol: flow.protocol,
        address: global,
        port,
        peer_address: flow.peer_address,
        peer_port: flow.peer_port,
    };
    let later = unexpired(after.translations, reply_at);
    assert(after.translations.drop_last() =~= ts);
    assert(later == unexpired(ts, reply_at).push(fresh));
    let n = later.len() - 1;
    assert(carries_inbound(later, reply, n));
    lemma_unexpired_members(ts, reply_at);
    assert forall|j: int| 0 <= j < n implies !#[trigger] carries_inbound(later, reply, j) by {
        assert(later[j] == unexpired(ts, reply_at)[j]);
        assert(ts.contains(later[j]));
        let m = choose|m: int| 0 <= m < ts.len() && ts[m] == later[j];
        assert(ts[m].inside_global_port != port);
    }
    let idx = inbound_index(later, reply);
    if idx < n {
        assert(!carries_inbound(later, reply, idx));
    } else if idx > n {
        assert(!carries_inbound(later, reply, n));
    }
}

/// The translations alive at `now` are no more than all of them.
proof fn lemma_unexpired_len(ts: Seq<NatTranslation>, now: u64)
    ensures
        unexpired(ts, now).len() <= ts.len(),
    decreases ts.len(),
{
    if ts.len() > 0 {
        lemma_unexpired_len(ts.drop_last(), now);
    }
}

fn same_protocol(a: NatProtocol, b: NatProtocol) -> (r: bool)
    ensures
        r == (a == b),
{
    match (a, b) {
        (NatProtocol::Tcp, NatProtocol::Tcp) => true,
        (NatProtocol::Udp, NatProtocol::Udp) => true,
        (NatProtocol::Icmp, NatProtocol::Icmp) => true,
        _ => false,
    }
}

/// The first static mapping that applies, translated to its rewrite target.
pub fn static_translation(
    rules: &[StaticNat],
    address: Ipv4Addr,
    transport: Option<(NatProtocol, u16)>,
    source: bool,
) -> (r: Option<(Ipv4Addr, Option<u16>)>)
    ensures
        match r {
            Some(target) => exists|k: int|
                0 <= k < rules@.len() && static_applies(#[trigger] rules@[k], address, transport, source)
                    && (forall|j: int| 0 <= j < k ==> !static_applies(#[trigger] rules@[j], address, transport, source))
                    && target == static_target(rules@[k], source),
            None => forall|k: int|
                0 <= k < rules@.len() ==> !static_applies(#[trigger] rules@[k], address, transport, source),
        },
{
    let mut k: usize = 0;
    while k < rules.len()
        invariant
            k <= rules@.len(),
            forall|j: int| 0 <= j < k ==> !static_applies(#[trigger] rules@[j], address, transport, source),
        decreases rules@.len() - k,
    {
        let rule = rules[k];
        let side = if source {
            rule.local()
        } else {
            rule.global()
        };
        let applies = side.0 == address.0 && match rule {
            StaticNat::Address { .. } => true,
            StaticNat::Port { protocol, local_port, global_port, .. } => match transport {
                Some((kind, port)) => {
                    let wanted = match protocol {
                        NatTransport::Tcp => NatProtocol::Tcp,
                        NatTransport::Udp => NatProtocol::Udp,
                    };
                    same_protocol(kind, wanted) && port == if source {
                        local_port
                    } else {
                        global_port
                    }
                },
                None => false,
            },
        };
        if applies {
            let target = match rule {
                StaticNat::Address { .. } => None,
                StaticNat::Port { local_port, global_port, .. } => Some(
                    if source {
                        global_port
                    } else {
                        local_port
                    },
                ),
            };
            let to = if source {
                rule.global()
            } else {
                rule.local()
            };
            assert(static_applies(rules@[k as int], address, transport, source));
            return Some((to, target));
        }
        k = k + 1;
    }
    None
}

impl NatTable {
    /// An empty table whose port translation starts at the first port.
    pub fn new() -> (r: NatTable)
        ensures
            r@ == (NatTableView {
                translations: Seq::empty(),
                statistics: NatStatistics { hits: 0, misses: 0, allocations: 0, expired: 0, drops: 0 },
                next_port: NAT_PORT_FIRST,
            }),
            nat_wf(r@),
    {
        let r = NatTable {
            translations: Vec::new(),
            statistics: NatStatistics { hits: 0, misses: 0, allocations: 0, expired: 0, drops: 0 },
            next_port: NAT_PORT_FIRST,
        };
        assert(r@.translations =~= Seq::<NatTranslation>::empty());
        r
    }

    /// The current dynamic translations, oldest first.
    pub fn translations(&self) -> (r: &[NatTranslation])
        ensures
            r@ == self@.translations,
    {
        self.translations.as_slice()
    }

    /// Current cumulative NAT counters.
    pub fn nat_statistics(&self) -> (r: NatStatistics)
        ensures
            r == self@.statistics,
    {
        self.statistics
    }

    /// Clear dynamic translations; counters and static configuration survive.
    pub fn clear_nat_translations(&mut self)
        ensures
            final(self)@ == (NatTableView { translations: Seq::empty(), ..old(self)@ }),
    {
        self.translations.clear();
        assert(self@.translations =~= Seq::<NatTranslation>::empty());
    }

    /// Count a packet translated successfully.
    pub fn record_hit(&mut self)
        ensures
            final(self)@ == (NatTableView {
                statistics: NatStatistics { hits: bump(old(self)@.statistics.hits, 1), ..old(self)@.statistics },
                ..old(self)@
            }),
    {
        self.statistics.hits = self.statistics.hits.saturating_add(1);
    }

    /// Count a packet that must be dropped rather than leak untranslated.
    pub fn nat_drop(&mut self) -> (r: NatOutcome)
        ensures
            r == NatOutcome::Drop,
            final(self)@ == count_drop(old(self)@),
    {
        self.statistics.drops = self.statistics.drops.saturating_add(1);
        NatOutcome::Drop
    }

    fn port_taken(&self, port: u16, rules: &[StaticNat]) -> (r: bool)
        ensures
            r == port_in_use(self@.translations, rules@, port),
    {
        let mut i: usize = 0;
        while i < self.translations.len()
            invariant
                i <= self.translations@.len(),
                forall|j: int| 0 <= j < i ==> (#[trigger] self.translations@[j]).inside_global_port != port,
            decreases self.translations@.len() - i,
        {
            if self.translations[i].inside_global_port == port {
                assert(self@.translations[i as int].inside_global_port == port);
                return true;
            }
            i = i + 1;
        }
        let mut k: usize = 0;
        while k < rules.len()
            invariant
                k <= rules@.len(),
                forall|j: int| 0 <= j < self.translations@.len() ==> (#[trigger] self.translations@[j]).inside_global_port != port,
                forall|j: int| 0 <= j < k ==> !(#[trigger] rules@[j] matches StaticNat::Port { global_port, .. } && global_port == port),
            decreases rules@.len() - k,
        {
            if let StaticNat::Port { global_port, .. } = rules[k] {
                if global_port == port {
                    assert(rules@[k as int] matches StaticNat::Port { global_port, .. } && global_port == port);
                    return true;
                }
            }
            k = k + 1;
        }
        false
    }

    /// Hand out the next free port, cycling once through the translation range.
    fn allocate_port(&mut self, rules: &[StaticNat]) -> (r: Option<u16>)
        requires
            nat_wf(old(self)@),
        ensures
            nat_wf(final(self)@),
            r == port_allocation(old(self)@.translations, rules@, old(self)@.next_port).0,
            final(self)@ == (NatTableView {
                next_port: port_allocation(old(self)@.translations, rules@, old(self)@.next_port).1,
                ..old(self)@
            }),
    {
        let ghost start = self.next_port;
        let ghost ts = self@.translations;
        let mut tried: u32 = 0;
        while tried < NAT_PORT_SPAN
            invariant
                tried <= NAT_PORT_SPAN,
                self@ == (NatTableView { next_port: self.next_port, ..old(self)@ }),
                ts == old(self)@.translations,
                start == old(self)@.next_port,
                self.next_port == nth_port(start, tried as nat),
                NAT_PORT_FIRST <= self.next_port <= NAT_PORT_LAST,
                forall|j: nat| j < tried ==> port_in_use(ts, rules@, #[trigger] nth_port(start, j)),
            decreases NAT_PORT_SPAN - tried,
        {
            let port = self.next_port;
            self.next_port = if port >= NAT_PORT_LAST {
                NAT_PORT_FIRST
            } else {
                port + 1
            };
            assert(nth_port(start, (tried + 1) as nat) == port_after(port));
            if !self.port_taken(port, rules) {
                proof {
                    assert(first_free_port(ts, rules@, start, tried as nat));
                    let k = choose|k: nat| first_free_port(ts, rules@, start, k);
                    lemma_first_port_unique(ts, rules@, start, k, tried as nat);
                }
                return Some(port);
            }
            tried = tried + 1;
        }
        proof {
            if exists|k: nat| first_free_port(ts, rules@, start, k) {
                let k = choose|k: nat| first_free_port(ts, rules@, start, k);
                assert(port_in_use(ts, rules@, nth_port(start, k)));
            }
        }
        None
    }

    fn pool_address_free(&self, rules: &[StaticNat], overload: bool, a: u32) -> (r: bool)
        ensures
            r == pool_free(self@.translations, rules@, overload, a),
    {
        let mut k: usize = 0;
        while k < rules.len()
            invariant
                k <= rules@.len(),
                forall|j: int| 0 <= j < k ==> static_global(#[trigger] rules@[j]).0 != a,
            decreases rules@.len() - k,
        {
            if rules[k].global().0 == a {
                return false;
            }
            k = k + 1;
        }
        if overload {
            return true;
        }
        let mut i: usize = 0;
        while i < self.translations.len()
            invariant
                !overload,
                i <= self.translations@.len(),
                forall|j: int| 0 <= j < rules@.len() ==> static_global(#[trigger] rules@[j]).0 != a,
                forall|j: int| 0 <= j < i ==> (#[trigger] self.translations@[j]).inside_global_address.0 != a,
            decreases self.translations@.len() - i,
        {
            if self.translations[i].inside_global_address.0 == a {
                assert(self@.translations[i as int].inside_global_address.0 == a);
                return false;
            }
            i = i + 1;
        }
        true
    }

    /// The outside address a pool gives `local`.
    fn pool_address(&self, rules: &[StaticNat], pool: NatPool, local: Ipv4Addr, overload: bool) -> (r: Option<Ipv4Addr>)
        ensures
            r == pool_address_spec(self@.translations, rules@, pool, local, overload),
    {
        let ghost ts = self@.translations;
        let mut i: usize = 0;
        while i < self.translations.len()
            invariant
                ts == self@.translations,
                i <= ts.len(),
                forall|j: int| 0 <= j < i ==> !#[trigger] pool_holds(ts, pool, local, j),
            decreases ts.len() - i,
        {
            let t = self.translations[i];
            if t.inside_local_address.0 == local.0 && pool.first.0 <= t.inside_global_address.0
                && t.inside_global_address.0 <= pool.last.0 {
                proof {
                    assert(pool_holds(ts, pool, local, i as int));
                    let k = choose|k: int|
                        pool_holds(ts, pool, local, k) && forall|j: int| 0 <= j < k ==> !#[trigger] pool_holds(ts, pool, local, j);
                    if k < i {
                        assert(!pool_holds(ts, pool, local, k));
                    } else if k > i {
                        assert(!pool_holds(ts, pool, local, i as int));
                    }
                }
                return Some(t.inside_global_address);
            }
            i = i + 1;
        }
        assert(!exists|k: int| pool_holds(ts, pool, local, k));
        if pool.first.0 > pool.last.0 {
            return None;
        }
        let mut a: u32 = pool.first.0;
        loop
            invariant
                ts == self@.translations,
                !exists|k: int| pool_holds(ts, pool, local, k),
                pool.first.0 <= a <= pool.last.0,
                forall|b: u32| pool.first.0 <= b < a ==> !#[trigger] pool_free(ts, rules@, overload, b),
            decreases pool.last.0 - a,
        {
            if self.pool_address_free(rules, overload, a) {
                proof {
                    let c = choose|c: u32|
                        pool.first.0 <= c <= pool.last.0 && #[trigger] pool_free(ts, rules@, overload, c) && forall|b: u32|
                            pool.first.0 <= b < c ==> !#[trigger] pool_free(ts, rules@, overload, b);
                    if c < a {
                        assert(!pool_free(ts, rules@, overload, c));
                    } else if c > a {
                        assert(!pool_free(ts, rules@, overload, a));
                    }
                }
                return Some(Ipv4Addr(a));
            }
            if a == pool.last.0 {
                return None;
            }
            a = a + 1;
        }
    }

    fn find_outbound(&self, flow: NatFlow) -> (r: Option<usize>)
        ensures
            match r {
                Some(i) => (exists|k: int| carries_outbound(self@.translations, flow, k)) && i as int
                    == outbound_index(self@.translations, flow) && carries_outbound(self@.translations, flow, i as int),
                None => !exists|k: int| carries_outbound(self@.translations, flow, k),
            },
    {
        let ghost ts = self@.translations;
        let mut i: usize = 0;
        while i < self.translations.len()
            invariant
                ts == self@.translations,
                i <= ts.len(),
                forall|j: int| 0 <= j < i ==> !#[trigger] carries_outbound(ts, flow, j),
            decreases ts.len() - i,
        {
            let t = self.translations[i];
            if same_protocol(t.protocol, flow.protocol) && t.inside_local_address.0 == flow.address.0
                && t.inside_local_port == flow.port && t.outside_global_address.0 == flow.peer_address.0
                && t.outside_global_port == flow.peer_port {
                proof {
                    assert(carries_outbound(ts, flow, i as int));
                    let k = outbound_index(ts, flow);
                    if k < i {
                        assert(!carries_outbound(ts, flow, k));
                    } else if k > i {
                        assert(!carries_outbound(ts, flow, i as int));
                    }
                }
                return Some(i);
            }
            i = i + 1;
        }
        None
    }

    fn find_inbound(&self, flow: NatFlow) -> (r: Option<usize>)
        ensures
            match r {
                Some(i) => (exists|k: int| carries_inbound(self@.translations, flow, k)) && i as int
                    == inbound_index(self@.translations, flow) && carries_inbound(self@.translations, flow, i as int),
                None => !exists|k: int| carries_inbound(self@.translations, flow, k),
            },
    {
        let ghost ts = self@.translations;
        let mut i: usize = 0;
        while i < self.translations.len()
            invariant
                ts == self@.translations,
                i <= ts.len(),
                forall|j: int| 0 <= j < i ==> !#[trigger] carries_inbound(ts, flow, j),
            decreases ts.len() - i,
        {
            let t = self.translations[i];
            if same_protocol(t.protocol, flow.protocol) && t.inside_global_address.0 == flow.address.0
                && t.inside_global_port == flow.port && t.outside_global_address.0 == flow.peer_address.0
                && t.outside_global_port == flow.peer_port {
                proof {
                    assert(carries_inbound(ts, flow, i as int));
                    let k = inbound_index(ts, flow);
                    if k < i {
                        assert(!carries_inbound(ts, flow, k));
                    } else if k > i {
                        assert(!carries_inbound(ts, flow, i as int));
                    }
                }
                return Some(i);
            }
            i = i + 1;
        }
        None
    }

    /// Refresh the expiry of the translation at `i`.
    fn refresh(&mut self, i: usize, now: u64) -> (t: NatTranslation)
        requires
            i < old(self)@.translations.len(),
        ensures
            t == old(self)@.translations[i as int],
            final(self)@ == (NatTableView {
                translations: old(self)@.translations.update(
                    i as int,
                    NatTranslation { expires_at: refreshed(now), ..old(self)@.translations[i as int] },
                ),
                ..old(self)@
            }),
    {
        let t = self.translations[i];
        let mut u = t;
        u.expires_at = now.saturating_add(NAT_TIMEOUT_US);
        self.translations.set(i, u);
        t
    }

    /// Choose the outside address and port for outbound `flow` at `now`: refresh its
    /// translation, or create one with an address from `source` and, with port translation
    /// (`overload`), the next port no translation or static mapping in `rules` uses. `None`
    /// means the packet must be dropped; the drop is counted.
    pub fn nat_outbound(
        &mut self,
        flow: NatFlow,
        source: GlobalSource,
        overload: bool,
        rules: &[StaticNat],
        now: u64,
    ) -> (r: Option<(Ipv4Addr, u16)>)
        requires
            nat_wf(old(self)@),
        ensures
            nat_wf(final(self)@),
            (final(self)@, r) == outbound_spec(old(self)@, flow, source, overload, rules@, now),
    {
        self.expire(now);
        if let Some(i) = self.find_outbound(flow) {
            let t = self.refresh(i, now);
            return Some((t.inside_global_address, t.inside_global_port));
        }
        if self.translations.len() >= MAX_TRANSLATIONS {
            self.nat_drop();
            return None;
        }
        let global = match source {
            GlobalSource::Pool(pool) => self.pool_address(rules, pool, flow.address, overload),
            GlobalSource::Interface(address) => address,
        };
        let g = match global {
            Some(g) => g,
            None => {
                self.nat_drop();
                return None;
            },
        };
        let port = if overload {
            self.allocate_port(rules)
        } else {
            Some(flow.port)
        };
        let p = match port {
            Some(p) => p,
            None => {
                self.nat_drop();
                return None;
            },
        };
        self.translations.push(
            NatTranslation {
                protocol: flow.protocol,
                inside_local_address: flow.address,
                inside_local_port: flow.port,
                inside_global_address: g,
                inside_global_port: p,
                outside_global_address: flow.peer_address,
                outside_global_port: flow.peer_port,
                expires_at: now.saturating_add(NAT_TIMEOUT_US),
            },
        );
        self.statistics.allocations = self.statistics.allocations.saturating_add(1);
        Some((g, p))
    }

    /// Map inbound `flow`, addressed to an outside address and port, back to the inside
    /// address and port at `now`, refreshing its translation; with none, count a miss.
    pub fn translate_nat_inbound(&mut self, flow: NatFlow, now: u64) -> (r: Option<(Ipv4Addr, u16)>)
        requires
            nat_wf(old(self)@),
        ensures
            nat_wf(final(self)@),
            (final(self)@, r) == inbound_spec(old(self)@, flow, now),
    {
        self.expire(now);
        match self.find_inbound(flow) {
            Some(i) => {
                let t = self.refresh(i, now);
                Some((t.inside_local_address, t.inside_local_port))
            },
            None => {
                self.statistics.misses = self.statistics.misses.saturating_add(1);
                None
            },
        }
    }

    /// Whether the router answers for `address` on an outside interface that is up: a
    /// static mapping's or a live translation's outside address. `outside_up` tells whether
    /// the interface is an operational outside interface.
    pub fn nat_owns_address(&mut self, outside_up: bool, rules: &[StaticNat], address: Ipv4Addr, now: u64) -> (r: bool)
        ensures
            !outside_up ==> !r && final(self)@ == old(self)@,
            outside_up ==> final(self)@ == expire_spec(old(self)@, now) && r == owns_spec(
                expire_spec(old(self)@, now).translations,
                rules@,
                address,
            ),
    {
        if !outside_up {
            return false;
        }
        self.expire(now);
        let mut k: usize = 0;
        while k < rules.len()
            invariant
                outside_up,
                self@ == expire_spec(old(self)@, now),
                k <= rules@.len(),
                forall|j: int| 0 <= j < k ==> static_global(#[trigger] rules@[j]) != address,
            decreases rules@.len() - k,
        {
            if rules[k].global().0 == address.0 {
                assert(static_global(rules@[k as int]) == address);
                return true;
            }
            k = k + 1;
        }
        let mut i: usize = 0;
        while i < self.translations.len()
            invariant
                outside_up,
                self@ == expire_spec(old(self)@, now),
                i <= self.translations@.len(),
                forall|j: int| 0 <= j < rules@.len() ==> static_global(#[trigger] rules@[j]) != address,
                forall|j: int| 0 <= j < i ==> (#[trigger] self.translations@[j]).inside_global_address != address,
            decreases self.translations@.len() - i,
        {
            if self.translations[i].inside_global_address.0 == address.0 {
                assert(self@.translations[i as int].inside_global_address == address);
                return true;
            }
            i = i + 1;
        }
        false
    }

    /// Drop the translations that expired by `now`, counting them.
    pub fn expire(&mut self, now: u64)
        ensures
            final(self)@ == expire_spec(old(self)@, now),
    {
        let ghost orig = self.translations@;
        let mut kept: Vec<NatTranslation> = Vec::new();
        let mut i: usize = 0;
        assert(orig.take(0) =~= Seq::<NatTranslation>::empty());
        while i < self.translations.len()
            invariant
                self.translations@ == orig,
                i <= orig.len(),
                kept@ == unexpired(orig.take(i as int), now),
            decreases orig.len() - i,
        {
            let t = self.translations[i];
            assert(orig.take(i + 1).drop_last() =~= orig.take(i as int));
            if t.expires_at > now {
                kept.push(t);
            }
            i = i + 1;
        }
        assert(orig.take(i as int) =~= orig);
        proof {
            lemma_unexpired_len(orig, now);
        }
        let removed = self.translations.len() - kept.len();
        self.statistics.expired = self.statistics.expired.saturating_add(removed as u64);
        self.translations = kept;
    }
}

/// Largest number of static mappings.
pub const MAX_STATIC_NAT: usize = 4096;

/// Largest number of named address pools.
pub const MAX_NAT_POOLS: usize = 256;

/// Whether a static mapping address is usable: not unspecified, multicast or broadcast.
pub open spec fn static_address_ok(a: Ipv4Addr) -> bool {
    a.0 != 0 && !(0xe000_0000 <= a.0 <= 0xefff_ffff) && a.0 != 0xffff_ffff
}

/// Whether two static mappings claim the same thing: two port mappings of one transport
/// that share the outside address and port or the inside address and port; otherwise, a
/// shared outside or inside address.
pub open spec fn static_conflict(a: StaticNat, b: StaticNat) -> bool {
    match (a, b) {
        (
            StaticNat::Port { protocol: pa, local_port: la, global_port: ga, .. },
            StaticNat::Port { protocol: pb, local_port: lb, global_port: gb, .. },
        ) => pa == pb && (static_global(a) == static_global(b) && ga == gb || static_local(a)
            == static_local(b) && la == lb),
        _ => static_global(a) == static_global(b) || static_local(a) == static_local(b),
    }
}

/// Whether no two distinct static mappings conflict.
pub open spec fn statics_consistent(rules: Seq<StaticNat>) -> bool {
    forall|i: int, j: int|
        0 <= i < rules.len() && 0 <= j < rules.len() && i != j ==> !static_conflict(
            #[trigger] rules[i],
            #[trigger] rules[j],
        )
}

/// The host bits of a prefix of `prefix_len` bits.
pub open spec fn host_mask(prefix_len: u8) -> u32 {
    if prefix_len >= 32 {
        0
    } else {
        0xffff_ffffu32 >> (prefix_len as u32)
    }
}

/// Whether a pool boundary address is usable: not in 0.0.0.0/8, not loopback, below the
/// multicast range, and, below /31, neither the subnet's network nor broadcast address.
pub open spec fn pool_address_ok(a: Ipv4Addr, prefix_len: u8) -> bool {
    let first = a.0 / 0x100_0000;
    &&& first != 0
    &&& first != 127
    &&& first < 224
    &&& prefix_len < 31 ==> (a.0 & host_mask(prefix_len) != 0 && a.0 & host_mask(prefix_len)
        != host_mask(prefix_len))
}

/// Whether a pool name is usable: 1 to 64 ASCII letters, digits, `_` or `-`.
pub open spec fn nat_pool_name_ok(bytes: Seq<u8>) -> bool {
    &&& 1 <= bytes.len() <= 64
    &&& forall|i: int|
        0 <= i < bytes.len() ==> (48 <= #[trigger] bytes[i] <= 57 || 65 <= bytes[i] <= 90 || 97
            <= bytes[i] <= 122 || bytes[i] == 95 || bytes[i] == 45)
}

/// Whether a pool is usable: its prefix length is at most 32, it runs upward over at most
/// 65536 addresses inside the subnet of its first address, and both ends are usable.
pub open spec fn nat_pool_ok(pool: NatPool) -> bool {
    &&& pool.prefix_len <= 32
    &&& pool.first.0 <= pool.last.0
    &&& pool.last.0 - pool.first.0 <= 65535
    &&& in_prefix((pool.first.0 & mask_bits(pool.prefix_len), pool.prefix_len), pool.last.0)
    &&& pool_address_ok(pool.first, pool.prefix_len)
    &&& pool_address_ok(pool.last, pool.prefix_len)
}

/// The side of the translation an interface is on.
#[derive(Debug, Clone, Copy, PartialEq, Eq, Structural)]
pub enum NatRole {
    Inside,
    Outside,
}

/// Port translation of the sources that standard list `access_list` permits to the address
/// of `outside_interface`.
#[derive(Debug, Clone, Copy, PartialEq, Eq, Structural)]
pub struct NatOverloadConfig {
    pub access_list: AccessListId,
    pub outside_interface: InterfaceId,
}

/// Translation of the sources that standard list `access_list` permits to the addresses of
/// pool `pool`, with port translation when `overload`.
#[derive(Debug, Clone, PartialEq, Eq)]
pub struct NatPoolRule {
    pub access_list: AccessListId,
    pub pool: String,
    pub overload: bool,
}

/// The static mappings, named pools, interface roles and dynamic rule of a router's
/// address translation.
#[derive(Debug)]
pub struct NatConfig {
    static_nat: Vec<StaticNat>,
    pools: Vec<(String, NatPool)>,
    roles: Vec<(InterfaceId, NatRole)>,
    overload: Option<NatOverloadConfig>,
    pool_rule: Option<NatPoolRule>,
}

/// A translation configuration as a mathematical value.
#[verifier::ext_equal]
pub struct NatConfigView {
    pub static_nat: Seq<StaticNat>,
    pub pools: Seq<(Seq<char>, NatPool)>,
    pub roles: Seq<(InterfaceId, NatRole)>,
    pub overload: Option<NatOverloadConfig>,
    pub pool_rule: Option<(AccessListId, Seq<char>, bool)>,
}

impl View for NatConfig {
    type V = NatConfigView;

    closed spec fn view(&self) -> NatConfigView {
        NatConfigView {
            static_nat: self.static_nat@,
            pools: self.pools@.map_values(|e: (String, NatPool)| (e.0@, e.1)),
            roles: self.roles@,
            overload: self.overload,
            pool_rule: match &self.pool_rule {
                Some(r) => Some((r.access_list, r.pool@, r.overload)),
                None => None,
            },
        }
    }
}

/// A configuration whose static mappings do not conflict and whose pools have distinct names.
pub open spec fn nat_config_wf(v: NatConfigView) -> bool {
    &&& statics_consistent(v.static_nat)
    &&& keys_unique(v.pools)
    &&& keys_unique(v.roles)
}

/// The mappings and result of adding static mapping `rule`; `router` tells whether the
/// device is a router. The flag tells whether dynamic translations are cleared.
pub open spec fn add_static_spec(rules: Seq<StaticNat>, rule: StaticNat, router: bool) -> (
    Seq<StaticNat>,
    Result<(), DeviceError>,
    bool,
) {
    if !router {
        (rules, Err(DeviceError::NatUnsupported), false)
    } else if rule matches StaticNat::Port { local_port, global_port, .. } && (local_port == 0
        || global_port == 0) {
        (rules, Err(DeviceError::InvalidNatConfig), false)
    } else if rules.contains(rule) {
        (rules, Ok(()), false)
    } else if rules.len() >= MAX_STATIC_NAT || !static_address_ok(static_local(rule))
        || !static_address_ok(static_global(rule)) || exists|i: int|
        0 <= i < rules.len() && static_conflict(#[trigger] rules[i], rule) {
        (rules, Err(DeviceError::InvalidNatConfig), false)
    } else {
        (rules.push(rule), Ok(()), true)
    }
}

/// The pools and result of defining pool `name` (text `chars`, bytes `bytes`); `router`
/// tells whether the device is a router. Success clears dynamic translations.
pub open spec fn set_pool_spec(
    pools: Seq<(Seq<char>, NatPool)>,
    chars: Seq<char>,
    bytes: Seq<u8>,
    pool: NatPool,
    router: bool,
) -> (Seq<(Seq<char>, NatPool)>, Result<(), DeviceError>) {
    if !router {
        (pools, Err(DeviceError::NatUnsupported))
    } else if !nat_pool_name_ok(bytes) || !nat_pool_ok(pool) || (pools.len() >= MAX_NAT_POOLS
        && !has_key(pools, chars)) {
        (pools, Err(DeviceError::InvalidNatConfig))
    } else {
        (put(pools, chars, pool), Ok(()))
    }
}

fn static_conflicts(a: StaticNat, b: StaticNat) -> (r: bool)
    ensures
        r == static_conflict(a, b),
{
    match (a, b) {
        (
            StaticNat::Port { protocol: pa, local_port: la, global_port: ga, .. },
            StaticNat::Port { protocol: pb, local_port: lb, global_port: gb, .. },
        ) => {
            let same_transport = match (pa, pb) {
                (NatTransport::Tcp, NatTransport::Tcp) => true,
                (NatTransport::Udp, NatTransport::Udp) => true,
                _ => false,
            };
            same_transport && (a.global().0 == b.global().0 && ga == gb || a.local().0
                == b.local().0 && la == lb)
        },
        _ => a.global().0 == b.global().0 || a.local().0 == b.local().0,
    }
}

fn static_address_usable(a: Ipv4Addr) -> (r: bool)
    ensures
        r == static_address_ok(a),
{
    !a.is_unspecified() && !a.is_multicast() && !a.is_broadcast()
}

fn pool_address_usable(a: Ipv4Addr, prefix_len: u8) -> (r: bool)
    requires
        prefix_len <= 32,
    ensures
        r == pool_address_ok(a, prefix_len),
{
    let first = a.octets()[0];
    let host: u32 = if prefix_len >= 32 {
        0
    } else {
        0xffff_ffffu32 >> (prefix_len as u32)
    };
    first != 0 && first != 127 && first < 224 && (prefix_len >= 31 || (a.0 & host != 0 && a.0
        & host != host))
}

impl NatConfig {
    /// No static mappings and no pools.
    pub fn new() -> (r: NatConfig)
        ensures
            r@ == (NatConfigView {
                static_nat: Seq::empty(),
                pools: Seq::empty(),
                roles: Seq::empty(),
                overload: None,
                pool_rule: None,
            }),
            nat_config_wf(r@),
    {
        let r = NatConfig { static_nat: Vec::new(), pools: Vec::new(), roles: Vec::new(), overload: None, pool_rule: None };
        assert(r@.pools =~= Seq::<(Seq<char>, NatPool)>::empty());
        r
    }

    /// The static mappings, in the order they were added.
    pub fn static_nat(&self) -> (r: &[StaticNat])
        ensures
            r@ == self@.static_nat,
    {
        self.static_nat.as_slice()
    }

    /// The pool named `name`, if defined.
    pub fn nat_pool(&self, name: &str) -> (r: Option<NatPool>)
        requires
            nat_config_wf(self@),
        ensures
            r is Some <==> has_key(self@.pools, name@),
            r matches Some(p) ==> self@.pools.contains((name@, p)),
    {
        let wanted = name.to_owned();
        let mut i: usize = 0;
        while i < self.pools.len()
            invariant
                wanted@ == name@,
                i <= self.pools@.len(),
                self@.pools.len() == self.pools@.len(),
                forall|j: int| 0 <= j < i ==> #[trigger] self@.pools[j].0 != name@,
            decreases self.pools@.len() - i,
        {
            assert(self@.pools[i as int] == (self.pools@[i as int].0@, self.pools@[i as int].1));
            if self.pools[i].0 == wanted {
                assert(self@.pools[i as int].0 == name@);
                assert(self@.pools[i as int] == (name@, self.pools@[i as int].1));
                return Some(self.pools[i].1);
            }
            i = i + 1;
        }
        None
    }

    /// Add a static mapping that conflicts with none; success clears the dynamic
    /// translations in `table`. `router` tells whether the device is a router.
    pub fn add_static_nat(&mut self, table: &mut NatTable, rule: StaticNat, router: bool) -> (r: Result<
        (),
        DeviceError,
    >)
        requires
            nat_config_wf(old(self)@),
        ensures
            nat_config_wf(final(self)@),
            final(self)@ == (NatConfigView {
                static_nat: add_static_spec(old(self)@.static_nat, rule, router).0,
                ..old(self)@
            }),
            r == add_static_spec(old(self)@.static_nat, rule, router).1,
            final(table)@ == if add_static_spec(old(self)@.static_nat, rule, router).2 {
                NatTableView { translations: Seq::empty(), ..old(table)@ }
            } else {
                old(table)@
            },
    {
        if !router {
            return Err(DeviceError::NatUnsupported);
        }
        if let StaticNat::Port { local_port, global_port, .. } = rule {
            if local_port == 0 || global_port == 0 {
                return Err(DeviceError::InvalidNatConfig);
            }
        }
        let ghost rules = self@.static_nat;
        let mut i: usize = 0;
        while i < self.static_nat.len()
            invariant
                self@ == old(self)@,
                nat_config_wf(self@),
                router,
                !(rule matches StaticNat::Port { local_port, global_port, .. } && (local_port == 0
                    || global_port == 0)),
                rules == self@.static_nat,
                i <= rules.len(),
                forall|j: int| 0 <= j < i ==> rules[j] != rule,
            decreases rules.len() - i,
        {
            if self.static_nat[i] == rule {
                assert(rules[i as int] == rule);
                return Ok(());
            }
            i = i + 1;
        }
        assert(!rules.contains(rule));
        if self.static_nat.len() >= MAX_STATIC_NAT || !static_address_usable(rule.local())
            || !static_address_usable(rule.global()) {
            return Err(DeviceError::InvalidNatConfig);
        }
        let mut k: usize = 0;
        while k < self.static_nat.len()
            invariant
                self@ == old(self)@,
                nat_config_wf(self@),
                router,
                !(rule matches StaticNat::Port { local_port, global_port, .. } && (local_port == 0
                    || global_port == 0)),
                !rules.contains(rule),
                rules.len() < MAX_STATIC_NAT,
                static_address_ok(static_local(rule)),
                static_address_ok(static_global(rule)),
                rules == self@.static_nat,
                k <= rules.len(),
                forall|j: int| 0 <= j < k ==> !static_conflict(#[trigger] rules[j], rule),
            decreases rules.len() - k,
        {
            if static_conflicts(self.static_nat[k], rule) {
                assert(static_conflict(rules[k as int], rule));
                return Err(DeviceError::InvalidNatConfig);
            }
            k = k + 1;
        }
        self.static_nat.push(rule);
        proof {
            let n = self@.static_nat;
            assert forall|a: int, b: int| 0 <= a < n.len() && 0 <= b < n.len() && a != b implies !static_conflict(
                #[trigger] n[a],
                #[trigger] n[b],
            ) by {
                if a == rules.len() {
                    assert(!static_conflict(rules[b], rule));
                    assert(n[b] == rules[b]);
                } else if b == rules.len() {
                    assert(n[a] == rules[a]);
                    assert(!static_conflict(rules[a], rule));
                } else {
                    assert(n[a] == rules[a] && n[b] == rules[b]);
                }
            }
            assert(self@.pools == old(self)@.pools);
        }
        table.clear_nat_translations();
        Ok(())
    }

    /// Define or replace the pool `name`; success clears the dynamic translations in
    /// `table`. `router` tells whether the device is a router.
    pub fn set_nat_pool(&mut self, table: &mut NatTable, name: &str, pool: NatPool, router: bool) -> (r: Result<
        (),
        DeviceError,
    >)
        requires
            nat_config_wf(old(self)@),
        ensures
            nat_config_wf(final(self)@),
            final(self)@ == (NatConfigView {
                pools: set_pool_spec(old(self)@.pools, name@, name.spec_bytes(), pool, router).0,
                ..old(self)@
            }),
            r == set_pool_spec(old(self)@.pools, name@, name.spec_bytes(), pool, router).1,
            final(table)@ == if r is Ok {
                NatTableView { translations: Seq::empty(), ..old(table)@ }
            } else {
                old(table)@
            },
    {
        if !router {
            return Err(DeviceError::NatUnsupported);
        }
        let network = match Ipv4Network::new(pool.first, pool.prefix_len) {
            Ok(n) => n,
            Err(_) => return Err(DeviceError::InvalidNatConfig),
        };
        let bytes = name.as_bytes();
        let mut name_ok = bytes.len() != 0 && bytes.len() <= 64;
        let mut k: usize = 0;
        while k < bytes.len()
            invariant
                k <= bytes@.len(),
                bytes@ == name.spec_bytes(),
                name_ok == (1 <= bytes@.len() <= 64 && forall|j: int|
                    0 <= j < k ==> (48 <= #[trigger] bytes@[j] <= 57 || 65 <= bytes@[j] <= 90 || 97
                        <= bytes@[j] <= 122 || bytes@[j] == 95 || bytes@[j] == 45)),
            decreases bytes@.len() - k,
        {
            let b = bytes[k];
            if !((48 <= b && b <= 57) || (65 <= b && b <= 90) || (97 <= b && b <= 122) || b == 95
                || b == 45) {
                name_ok = false;
            }
            k = k + 1;
        }
        let ghost v = self@.pools;
        let wanted = name.to_owned();
        let mut index: Option<usize> = None;
        let mut i: usize = 0;
        while i < self.pools.len()
            invariant
                wanted@ == name@,
                v == self@.pools,
                nat_config_wf(self@),
                i <= self.pools@.len(),
                v.len() == self.pools@.len(),
                match index {
                    Some(x) => x < v.len() && v[x as int].0 == name@,
                    None => forall|j: int| 0 <= j < i ==> #[trigger] v[j].0 != name@,
                },
            decreases self.pools@.len() - i,
        {
            assert(v[i as int] == (self.pools@[i as int].0@, self.pools@[i as int].1));
            if index.is_none() && self.pools[i].0 == wanted {
                index = Some(i);
            }
            i = i + 1;
        }
        let known = index.is_some();
        if !name_ok || pool.first.0 > pool.last.0 || pool.last.0 - pool.first.0 > 65535
            || !network.contains(pool.last) || !pool_address_usable(pool.first, pool.prefix_len)
            || !pool_address_usable(pool.last, pool.prefix_len) || (self.pools.len() >= MAX_NAT_POOLS
            && !known) {
            return Err(DeviceError::InvalidNatConfig);
        }
        proof {
            lemma_put_unique(v, name@, pool);
            if let Some(x) = index {
                crate::keyed::lemma_key_index(v, x as int);
            }
        }
        match index {
            Some(x) => {
                self.pools.set(x, (wanted, pool));
            },
            None => {
                self.pools.push((wanted, pool));
            },
        }
        assert(self@.pools =~= put(v, name@, pool));
        table.clear_nat_translations();
        Ok(())
    }
}

/// Static mappings never overlap: in a configuration of mutually non-conflicting mappings,
/// at most one applies to any packet.
pub proof fn lemma_one_static_mapping_applies(
    rules: Seq<StaticNat>,
    address: Ipv4Addr,
    transport: Option<(NatProtocol, u16)>,
    source: bool,
    i: int,
    j: int,
)
    requires
        statics_consistent(rules),
        0 <= i < rules.len(),
        0 <= j < rules.len(),
        static_applies(rules[i], address, transport, source),
        static_applies(rules[j], address, transport, source),
    ensures
        i == j,
{
    if i != j {
        assert(!static_conflict(rules[i], rules[j]));
    }
}

/// Whether list `id` is defined in `acls`, as numbered or as a named list of its number.
pub open spec fn list_defined(acls: crate::acl::AclTableView, id: AccessListId) -> bool {
    has_key(acls.numbered, id) || crate::acl::acl_lookup(acls.named, crate::acl::number_name(id)) is Some
}

/// The dynamic rule that applies to traffic leaving through `egress`: the pool rule, with
/// its pool when defined, else port translation to the outside interface when that is
/// `egress`. The result is the list that selects sources, the pool, and whether ports are
/// translated.
pub open spec fn dynamic_rule_spec(v: NatConfigView, egress: InterfaceId) -> Option<(AccessListId, Option<NatPool>, bool)> {
    match v.pool_rule {
        Some((acl, name, overload)) => Some(
            (
                acl,
                if has_key(v.pools, name) {
                    Some(value_of(v.pools, name))
                } else {
                    None
                },
                overload,
            ),
        ),
        None => match v.overload {
            Some(o) => if o.outside_interface == egress {
                Some((o.access_list, None, true))
            } else {
                None
            },
            None => None,
        },
    }
}

/// The role of `interface`, if it has one.
pub open spec fn role_of(v: NatConfigView, interface: InterfaceId) -> Option<NatRole> {
    if has_key(v.roles, interface) {
        Some(value_of(v.roles, interface))
    } else {
        None
    }
}

impl NatConfig {
    /// The role of `interface`.
    pub fn nat_role(&self, interface: InterfaceId) -> (r: Option<NatRole>)
        requires
            nat_config_wf(self@),
        ensures
            r == role_of(self@, interface),
    {
        let mut i: usize = 0;
        while i < self.roles.len()
            invariant
                nat_config_wf(self@),
                i <= self@.roles.len(),
                forall|j: int| 0 <= j < i ==> #[trigger] self@.roles[j].0 != interface,
            decreases self@.roles.len() - i,
        {
            if self.roles[i].0.0 == interface.0 {
                proof {
                    lemma_key_index(self@.roles, i as int);
                }
                return Some(self.roles[i].1);
            }
            i = i + 1;
        }
        None
    }

    /// Put `interface` on the `role` side; `router` tells whether the device is a router and
    /// `present` whether the interface exists.
    pub fn set_nat_role(&mut self, router: bool, present: bool, interface: InterfaceId, role: NatRole) -> (r: Result<(), DeviceError>)
        requires
            nat_config_wf(old(self)@),
        ensures
            nat_config_wf(final(self)@),
            r == if !router {
                Err::<(), DeviceError>(DeviceError::NatUnsupported)
            } else if !present {
                Err(DeviceError::MissingInterface)
            } else {
                Ok(())
            },
            final(self)@ == if r is Ok {
                NatConfigView { roles: put(old(self)@.roles, interface, role), ..old(self)@ }
            } else {
                old(self)@
            },
    {
        if !router {
            return Err(DeviceError::NatUnsupported);
        }
        if !present {
            return Err(DeviceError::MissingInterface);
        }
        let ghost before = self@;
        proof {
            lemma_put_unique(before.roles, interface, role);
        }
        let mut i: usize = 0;
        while i < self.roles.len()
            invariant
                self@ == before,
                before == old(self)@,
                router,
                present,
                nat_config_wf(before),
                keys_unique(put(before.roles, interface, role)),
                i <= before.roles.len(),
                forall|j: int| 0 <= j < i ==> #[trigger] before.roles[j].0 != interface,
            decreases before.roles.len() - i,
        {
            if self.roles[i].0.0 == interface.0 {
                proof {
                    lemma_key_index(before.roles, i as int);
                }
                self.roles.set(i, (interface, role));
                proof {
                    assert(self@ =~= NatConfigView { roles: put(before.roles, interface, role), ..before });
                }
                return Ok(());
            }
            i = i + 1;
        }
        self.roles.push((interface, role));
        proof {
            assert(self@ =~= NatConfigView { roles: put(before.roles, interface, role), ..before });
        }
        Ok(())
    }

    /// Translate the sources list `access_list` permits to the address of
    /// `outside_interface`, with ports; this replaces a pool rule and clears the dynamic
    /// translations in `table`. `router` tells whether the device is a router and `present`
    /// whether the interface exists.
    pub fn set_nat_overload(
        &mut self,
        table: &mut NatTable,
        acls: &AclTable,
        router: bool,
        access_list: AccessListId,
        outside_interface: InterfaceId,
        present: bool,
    ) -> (r: Result<(), DeviceError>)
        requires
            nat_config_wf(old(self)@),
            acl_wf(acls@),
        ensures
            nat_config_wf(final(self)@),
            r == if !router {
                Err::<(), DeviceError>(DeviceError::NatUnsupported)
            } else if !list_defined(acls@, access_list) || !present {
                Err(DeviceError::InvalidNatConfig)
            } else {
                Ok(())
            },
            final(self)@ == if r is Ok {
                NatConfigView {
                    overload: Some(NatOverloadConfig { access_list, outside_interface }),
                    pool_rule: None,
                    ..old(self)@
                }
            } else {
                old(self)@
            },
            final(table)@ == if r is Ok {
                NatTableView { translations: Seq::empty(), ..old(table)@ }
            } else {
                old(table)@
            },
    {
        if !router {
            return Err(DeviceError::NatUnsupported);
        }
        if !acls.list_known(access_list) || !present {
            return Err(DeviceError::InvalidNatConfig);
        }
        let ghost before = self@;
        self.overload = Some(NatOverloadConfig { access_list, outside_interface });
        self.pool_rule = None;
        table.clear_nat_translations();
        proof {
            assert(self@ =~= NatConfigView {
                overload: Some(NatOverloadConfig { access_list, outside_interface }),
                pool_rule: None,
                ..before
            });
        }
        Ok(())
    }

    /// Translate the sources the rule's list permits to the addresses of its pool, which
    /// must be defined; this replaces port translation to an interface and clears the
    /// dynamic translations in `table`. `router` tells whether the device is a router.
    pub fn set_nat_pool_rule(&mut self, table: &mut NatTable, acls: &AclTable, router: bool, rule: NatPoolRule) -> (r: Result<
        (),
        DeviceError,
    >)
        requires
            nat_config_wf(old(self)@),
            acl_wf(acls@),
        ensures
            nat_config_wf(final(self)@),
            r == if !router {
                Err::<(), DeviceError>(DeviceError::NatUnsupported)
            } else if !list_defined(acls@, rule.access_list) || !has_key(old(self)@.pools, rule.pool@) {
                Err(DeviceError::InvalidNatConfig)
            } else {
                Ok(())
            },
            final(self)@ == if r is Ok {
                NatConfigView {
                    pool_rule: Some((rule.access_list, rule.pool@, rule.overload)),
                    overload: None,
                    ..old(self)@
                }
            } else {
                old(self)@
            },
            final(table)@ == if r is Ok {
                NatTableView { translations: Seq::empty(), ..old(table)@ }
            } else {
                old(table)@
            },
    {
        if !router {
            return Err(DeviceError::NatUnsupported);
        }
        if !acls.list_known(rule.access_list) || self.nat_pool(rule.pool.as_str()).is_none() {
            return Err(DeviceError::InvalidNatConfig);
        }
        let ghost before = self@;
        let ghost wanted = (rule.access_list, rule.pool@, rule.overload);
        self.pool_rule = Some(rule);
        self.overload = None;
        table.clear_nat_translations();
        proof {
            assert(self@ =~= NatConfigView { pool_rule: Some(wanted), overload: None, ..before });
        }
        Ok(())
    }

    /// Whether traffic from `ingress` to `egress` crosses from the inside to the outside.
    pub fn crosses_inside_out(&self, ingress: InterfaceId, egress: InterfaceId) -> (r: bool)
        requires
            nat_config_wf(self@),
        ensures
            r == (role_of(self@, ingress) == Some(NatRole::Inside) && role_of(self@, egress) == Some(NatRole::Outside)),
    {
        let a = self.nat_role(ingress);
        let b = self.nat_role(egress);
        match (a, b) {
            (Some(NatRole::Inside), Some(NatRole::Outside)) => true,
            _ => false,
        }
    }

    /// The dynamic rule that applies to traffic leaving through `egress`: the pool rule,
    /// with its pool when defined, else port translation to the outside interface when that
    /// is `egress`.
    pub fn dynamic_rule(&self, egress: InterfaceId) -> (r: Option<(AccessListId, Option<NatPool>, bool)>)
        requires
            nat_config_wf(self@),
        ensures
            r == dynamic_rule_spec(self@, egress),
    {
        match &self.pool_rule {
            Some(rule) => {
                let pool = self.nat_pool(rule.pool.as_str());
                proof {
                    if let Some(p) = pool {
                        crate::keyed::lemma_value_of(self@.pools, rule.pool@, p);
                    }
                }
                Some((rule.access_list, pool, rule.overload))
            },
            None => match self.overload {
                Some(o) => if o.outside_interface.0 == egress.0 {
                    Some((o.access_list, None, true))
                } else {
                    None
                },
                None => None,
            },
        }
    }
}

/// The address translation statistics report: active translations, static and dynamic,
/// then the counters.
pub open spec fn nat_statistics_text(dynamic: nat, statics: nat, s: NatStatistics) -> Seq<char> {
    "Total active translations: "@ + decimal_text(dynamic + statics) + " ("@ + decimal_text(statics)
        + " static, "@ + decimal_text(dynamic) + " dynamic)\nHits: "@ + decimal_text(s.hits as nat)
        + " Misses: "@ + decimal_text(s.misses as nat) + " Allocations: "@ + decimal_text(
        s.allocations as nat,
    ) + " Expired: "@ + decimal_text(s.expired as nat) + " Drops: "@ + decimal_text(s.drops as nat) + "\n"@
}

impl NatTable {
    /// Expire the dynamic translations that ended by `now`, then report how many
    /// translations are active, static ones of `config` included, and the counters.
    pub fn show_ip_nat_statistics(&mut self, config: &NatConfig, now: u64) -> (r: String)
        ensures
            final(self)@ == expire_spec(old(self)@, now),
            r@ == nat_statistics_text(
                final(self)@.translations.len(),
                config@.static_nat.len(),
                final(self)@.statistics,
            ),
    {
        self.expire(now);
        let dynamic = self.translations().len();
        let statics = config.static_nat().len();
        let st = self.nat_statistics();
        let mut out: Vec<char> = Vec::new();
        push_str(&mut out, "Total active translations: ");
        push_wide_number(&mut out, dynamic as u128 + statics as u128);
        push_str(&mut out, " (");
        push_wide_number(&mut out, statics as u128);
        push_str(&mut out, " static, ");
        push_wide_number(&mut out, dynamic as u128);
        push_str(&mut out, " dynamic)\nHits: ");
        push_number(&mut out, st.hits);
        push_str(&mut out, " Misses: ");
        push_number(&mut out, st.misses);
        push_str(&mut out, " Allocations: ");
        push_number(&mut out, st.allocations);
        push_str(&mut out, " Expired: ");
        push_number(&mut out, st.expired);
        push_str(&mut out, " Drops: ");
        push_number(&mut out, st.drops);
        push_str(&mut out, "\n");
        proof {
            assert(out@ =~= nat_statistics_text(dynamic as nat, statics as nat, st));
        }
        finish(out)
    }
}

} // verus!
