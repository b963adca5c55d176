//! Per-VLAN spanning tree: configuration BPDUs heard on each port, the election of the root
//! bridge and root port, and the role and forwarding state of every port.
use crate::inventory::{carries, device_wf, edit_spec, slot, up_spec, vlans_view, AdminState, Device, DeviceView, SwitchportMode};
use crate::device::DeviceError;
use crate::keyed::{
    find_sequence, has_key, key_index, keys_unique, lemma_key_index, lemma_map_entries,
    lemma_map_entries_keys, lemma_put_unique, lemma_remove_sorted, lemma_sorted_put_read,
    lemma_without_read, map_entries, put, put_entry, sorted_keys, sorted_put, value_of, without,
};
use crate::mac::{MacAddress, VlanId};
use crate::switching::{mac_table_wf, off_interfaces, MacEntry, MacTable};
use crate::routing::InterfaceId;
use vstd::prelude::*;

verus! {

/// How long a heard BPDU stays valid: twenty seconds, in microseconds.
pub const STP_MAX_AGE_US: u64 = 20_000_000;

/// How long a port that starts toward forwarding listens, and then learns, before it
/// forwards: fifteen seconds each, in microseconds.
pub const STP_FORWARD_DELAY_US: u64 = 15_000_000;

/// The cost a bridge adds for the link a BPDU arrived on.
pub const STP_LINK_COST: u32 = 4;

/// A configuration BPDU: the root the sender believes in, its cost to that root, and the
/// sender's bridge and port identifiers.
#[derive(Debug, Clone, Copy, PartialEq, Eq, Structural)]
pub struct ConfigurationBpdu {
    pub root_id: u64,
    pub root_cost: u32,
    pub bridge_id: u64,
    pub port_id: u16,
}

/// The role of a port in the tree.
#[derive(Debug, Clone, Copy, PartialEq, Eq, Structural)]
pub enum StpPortRole {
    Root,
    Designated,
    Alternate,
}

/// Whether a port forwards data: a port on its way to forwarding first listens, then
/// learns addresses, each for the forward delay.
#[derive(Debug, Clone, Copy, PartialEq, Eq, Structural)]
pub enum StpPortState {
    Forwarding,
    Blocking,
    Listening,
    Learning,
}

/// A BPDU heard on a port, valid until `expires_at` (microseconds), with the cost of the
/// port's link and whether root guard was on for the port when it arrived.
#[derive(Debug, Clone, Copy, PartialEq, Eq, Structural)]
pub struct StpReceived {
    pub bpdu: ConfigurationBpdu,
    pub expires_at: u64,
    pub link_cost: u32,
    pub guarded: bool,
}

/// The spanning tree of one VLAN: the elected root, this bridge's cost to it and its root
/// port, the role and state of each member port in interface order with the time each
/// started toward forwarding, and the BPDUs heard, at most one per port.
#[derive(Debug, Clone, PartialEq, Eq)]
pub struct StpInstance {
    pub root_id: u64,
    pub root_cost: u32,
    pub root_port: Option<InterfaceId>,
    pub ports: Vec<(InterfaceId, StpPortRole, StpPortState)>,
    pub since: Vec<u64>,
    pub received: Vec<(InterfaceId, StpReceived)>,
}

/// An instance as a mathematical value.
pub struct InstanceView {
    pub root_id: u64,
    pub root_cost: u32,
    pub root_port: Option<InterfaceId>,
    pub ports: Seq<(InterfaceId, StpPortRole, StpPortState)>,
    pub since: Seq<u64>,
    pub received: Seq<(InterfaceId, StpReceived)>,
}

impl View for StpInstance {
    type V = InstanceView;

    open spec fn view(&self) -> InstanceView {
        InstanceView {
            root_id: self.root_id,
            root_cost: self.root_cost,
            root_port: self.root_port,
            ports: self.ports@,
            since: self.since@,
            received: self.received@,
        }
    }
}

/// Whether each port occurs once among the member ports.
pub open spec fn ports_distinct(s: Seq<(InterfaceId, StpPortRole, StpPortState)>) -> bool {
    forall|i: int, j: int| 0 <= i < j < s.len() ==> #[trigger] s[i].0 != #[trigger] s[j].0
}

/// An instance that has heard at most one BPDU per port, lists each member port once, and
/// keeps a start time for each.
pub open spec fn instance_wf(v: InstanceView) -> bool {
    &&& keys_unique(v.received)
    &&& ports_distinct(v.ports)
    &&& v.since.len() == v.ports.len()
}

/// The cost to the root through a BPDU's sender: its cost plus that of the link, at most
/// the largest cost.
pub open spec fn path_cost(cost: u32, link: u32) -> u32 {
    if cost + link > u32::MAX {
        u32::MAX
    } else {
        (cost + link) as u32
    }
}

/// The port identifier this bridge sends on port `p`: 0x8000 plus its number, at most
/// 0xffff.
pub open spec fn port_number(p: InterfaceId) -> u16 {
    if 0x8000 + (p.0 as u16) > 0xffff {
        0xffff
    } else {
        (0x8000 + (p.0 as u16)) as u16
    }
}

/// Whether `a` is better than (lexicographically below) `b`: root, cost, bridge, port.
pub open spec fn better(a: (u64, u32, u64, u16), b: (u64, u32, u64, u16)) -> bool {
    ||| a.0 < b.0
    ||| a.0 == b.0 && a.1 < b.1
    ||| a.0 == b.0 && a.1 == b.1 && a.2 < b.2
    ||| a.0 == b.0 && a.1 == b.1 && a.2 == b.2 && a.3 < b.3
}

/// Whether offer `a` is better than offer `b`: by vector, then by receiving interface.
pub open spec fn better_offer(a: ((u64, u32, u64, u16), u64), b: ((u64, u32, u64, u16), u64)) -> bool {
    better(a.0, b.0) || (a.0 == b.0 && a.1 < b.1)
}

/// The vector a BPDU advertises.
pub open spec fn advertised(b: ConfigurationBpdu) -> (u64, u32, u64, u16) {
    (b.root_id, b.root_cost, b.bridge_id, b.port_id)
}

/// What a heard BPDU offers this bridge: its root at the cost through the link, with the
/// receiving interface as the last tie-breaker.
pub open spec fn offer(e: (InterfaceId, StpReceived)) -> ((u64, u32, u64, u16), u64) {
    ((e.1.bpdu.root_id, path_cost(e.1.bpdu.root_cost, e.1.link_cost), e.1.bpdu.bridge_id, e.1.bpdu.port_id), e.0.0)
}

/// What this bridge offers itself: itself as root at no cost.
pub open spec fn own_offer(bridge: u64) -> ((u64, u32, u64, u16), u64) {
    ((bridge, 0, bridge, 0), 0)
}

/// Whether a heard BPDU still counts: it arrived on a member port and has not expired.
pub open spec fn counts(e: (InterfaceId, StpReceived), ports: Seq<InterfaceId>, now: u64) -> bool {
    ports.contains(e.0) && e.1.expires_at > now
}

/// The heard BPDUs that still count, in order.
pub open spec fn live(r: Seq<(InterfaceId, StpReceived)>, ports: Seq<InterfaceId>, now: u64) -> Seq<(InterfaceId, StpReceived)>
    decreases r.len(),
{
    if r.len() == 0 {
        r
    } else {
        let rest = live(r.drop_last(), ports, now);
        if counts(r.last(), ports, now) {
            rest.push(r.last())
        } else {
            rest
        }
    }
}

/// Whether entry `k` makes the best offer among the entries of `l` that root guard does not
/// hold back.
pub open spec fn best_at(l: Seq<(InterfaceId, StpReceived)>, k: int) -> bool {
    &&& 0 <= k < l.len()
    &&& !l[k].1.guarded
    &&& forall|j: int| 0 <= j < l.len() && !l[j].1.guarded ==> !better_offer(#[trigger] offer(l[j]), offer(l[k]))
}

/// Whether some heard BPDU beats this bridge's own claim to be root.
pub open spec fn has_better_root(l: Seq<(InterfaceId, StpReceived)>, bridge: u64) -> bool {
    exists|k: int| best_at(l, k) && better_offer(offer(l[k]), own_offer(bridge))
}

/// The elected root, this bridge's cost to it and its root port: the best heard offer when
/// it beats this bridge, else this bridge itself at no cost.
pub open spec fn elect(l: Seq<(InterfaceId, StpReceived)>, bridge: u64) -> (u64, u32, Option<InterfaceId>) {
    if has_better_root(l, bridge) {
        let k = choose|k: int| best_at(l, k) && better_offer(offer(l[k]), own_offer(bridge));
        (offer(l[k]).0.0, offer(l[k]).0.1, Some(l[k].0))
    } else {
        (bridge, 0, None)
    }
}

/// The role and state of member port `p`: the root port forwards; another port is
/// designated and forwards unless the BPDU heard on it is better than what this bridge
/// would send there, in which case it is an alternate and blocks.
pub open spec fn port_role(
    l: Seq<(InterfaceId, StpReceived)>,
    root: (u64, u32, Option<InterfaceId>),
    bridge: u64,
    p: InterfaceId,
) -> (StpPortRole, StpPortState) {
    if root.2 == Some(p) {
        (StpPortRole::Root, StpPortState::Forwarding)
    } else if !has_key(l, p) || better((root.0, root.1, bridge, port_number(p)), advertised(value_of(l, p).bpdu)) {
        (StpPortRole::Designated, StpPortState::Forwarding)
    } else {
        (StpPortRole::Alternate, StpPortState::Blocking)
    }
}

/// Whether port `p` is an edge port under `policies`: it forwards as soon as its role
/// allows.
pub open spec fn edge_port(policies: Seq<(InterfaceId, StpPortConfig)>, p: InterfaceId) -> bool {
    has_key(policies, p) && value_of(policies, p).portfast
}

/// Whether member port `p` of `v` is on its way to forwarding or forwards.
pub open spec fn on_the_way(v: InstanceView, p: InterfaceId) -> bool {
    exists|j: int| 0 <= j < v.ports.len() && (#[trigger] v.ports[j]).0 == p && v.ports[j].2 != StpPortState::Blocking
}

/// When port `p` started toward forwarding: the time kept in `v` while it is on its way,
/// else `now`.
pub open spec fn start_of(v: InstanceView, p: InterfaceId, now: u64) -> u64 {
    if on_the_way(v, p) {
        let j = choose|j: int|
            0 <= j < v.ports.len() && (#[trigger] v.ports[j]).0 == p && v.ports[j].2 != StpPortState::Blocking;
        v.since[j]
    } else {
        now
    }
}

/// The state of a port whose role lets it reach `target`: a blocked port blocks, an edge
/// port forwards at once, and another listens for the forward delay after `start`, then
/// learns for the forward delay, then forwards.
pub open spec fn timed_state(target: StpPortState, edge: bool, start: u64, now: u64) -> StpPortState {
    if target == StpPortState::Blocking {
        StpPortState::Blocking
    } else if edge || now - start >= 2 * STP_FORWARD_DELAY_US {
        StpPortState::Forwarding
    } else if now - start >= STP_FORWARD_DELAY_US {
        StpPortState::Learning
    } else {
        StpPortState::Listening
    }
}

/// The instance after recomputing the tree of bridge `bridge` over member `ports` with port
/// `policies` at `now`.
pub open spec fn recompute_spec(
    v: InstanceView,
    bridge: u64,
    ports: Seq<InterfaceId>,
    policies: Seq<(InterfaceId, StpPortConfig)>,
    now: u64,
) -> InstanceView {
    let l = live(v.received, ports, now);
    let root = elect(l, bridge);
    InstanceView {
        root_id: root.0,
        root_cost: root.1,
        root_port: root.2,
        ports: ports.map_values(
            |p: InterfaceId|
                (
                    p,
                    port_role(l, root, bridge, p).0,
                    timed_state(port_role(l, root, bridge, p).1, edge_port(policies, p), start_of(v, p, now), now),
                ),
        ),
        since: ports.map_values(
            |p: InterfaceId|
                if port_role(l, root, bridge, p).1 == StpPortState::Forwarding {
                    start_of(v, p, now)
                } else {
                    now
                },
        ),
        received: l,
    }
}

/// Whether port `p` blocks in `after` but did not block, or was no member, in `before`.
pub open spec fn newly_blocked(
    before: Seq<(InterfaceId, StpPortRole, StpPortState)>,
    after: Seq<(InterfaceId, StpPortRole, StpPortState)>,
    p: InterfaceId,
) -> bool {
    &&& exists|i: int| 0 <= i < after.len() && #[trigger] after[i].0 == p && after[i].2 == StpPortState::Blocking
    &&& forall|i: int| 0 <= i < before.len() && #[trigger] before[i].0 == p ==> before[i].2 != StpPortState::Blocking
}

/// Whether `p` occurs in `ports`.
fn contains_port(ports: &Vec<InterfaceId>, p: InterfaceId) -> (r: bool)
    ensures
        r == ports@.contains(p),
{
    let mut i: usize = 0;
    while i < ports.len()
        invariant
            i <= ports@.len(),
            forall|j: int| 0 <= j < i ==> ports@[j] != p,
        decreases ports@.len() - i,
    {
        if ports[i].0 == p.0 {
            assert(ports@[i as int] == p);
            return true;
        }
        i = i + 1;
    }
    false
}

/// Whether `a` is better than `b`, computed.
fn better_exec(a: (u64, u32, u64, u16), b: (u64, u32, u64, u16)) -> (r: bool)
    ensures
        r == better(a, b),
{
    if a.0 != b.0 {
        a.0 < b.0
    } else if a.1 != b.1 {
        a.1 < b.1
    } else if a.2 != b.2 {
        a.2 < b.2
    } else {
        a.3 < b.3
    }
}

/// Whether offer `a` is better than offer `b`, computed.
fn better_offer_exec(a: ((u64, u32, u64, u16), u64), b: ((u64, u32, u64, u16), u64)) -> (r: bool)
    ensures
        r == better_offer(a, b),
{
    if better_exec(a.0, b.0) {
        true
    } else if (a.0).0 == (b.0).0 && (a.0).1 == (b.0).1 && (a.0).2 == (b.0).2 && (a.0).3 == (b.0).3 {
        a.1 < b.1
    } else {
        false
    }
}

/// The offer of a heard BPDU, computed.
fn offer_exec(e: (InterfaceId, StpReceived)) -> (r: ((u64, u32, u64, u16), u64))
    ensures
        r == offer(e),
{
    let cost = e.1.bpdu.root_cost.saturating_add(e.1.link_cost);
    ((e.1.bpdu.root_id, cost, e.1.bpdu.bridge_id, e.1.bpdu.port_id), e.0.0)
}

/// The port identifier sent on port `p`, computed.
pub fn port_number_exec(p: InterfaceId) -> (r: u16)
    ensures
        r == port_number(p),
{
    0x8000u16.saturating_add(p.0 as u16)
}

/// Better offers are an order: irreflexive and transitive.
proof fn lemma_better_offer_order()
    ensures
        forall|a: ((u64, u32, u64, u16), u64)| !better_offer(a, a),
        forall|a: ((u64, u32, u64, u16), u64), b: ((u64, u32, u64, u16), u64), c: ((u64, u32, u64, u16), u64)|
            #![trigger better_offer(a, b), better_offer(b, c)]
            better_offer(a, b) && better_offer(b, c) ==> better_offer(a, c),
        forall|a: ((u64, u32, u64, u16), u64), b: ((u64, u32, u64, u16), u64)|
            #![trigger better_offer(a, b)]
            a != b ==> better_offer(a, b) || better_offer(b, a),
{
}

/// Whether each port occurs once.
pub open spec fn ids_distinct(s: Seq<InterfaceId>) -> bool {
    forall|i: int, j: int| 0 <= i < j < s.len() ==> s[i] != s[j]
}

/// Facts about the heard BPDUs that still count: they are heard BPDUs that count, every
/// heard BPDU that counts is among them, and one per port stays one per port.
proof fn lemma_live(r: Seq<(InterfaceId, StpReceived)>, ports: Seq<InterfaceId>, now: u64)
    ensures
        forall|i: int| 0 <= i < live(r, ports, now).len() ==> r.contains(#[trigger] live(r, ports, now)[i]) && counts(
            live(r, ports, now)[i],
            ports,
            now,
        ),
        forall|i: int| 0 <= i < r.len() && counts(#[trigger] r[i], ports, now) ==> live(r, ports, now).contains(r[i]),
        keys_unique(r) ==> keys_unique(live(r, ports, now)),
    decreases r.len(),
{
    if r.len() > 0 {
        let init = r.drop_last();
        lemma_live(init, ports, now);
        let rest = live(init, ports, now);
        let out = live(r, ports, now);
        assert forall|i: int| 0 <= i < r.len() && counts(#[trigger] r[i], ports, now) implies out.contains(r[i]) by {
            if i < r.len() - 1 {
                assert(init[i] == r[i]);
                assert(rest.contains(init[i]));
                let m = choose|m: int| 0 <= m < rest.len() && rest[m] == init[i];
                assert(out[m] == rest[m]);
            } else {
                assert(out[out.len() - 1] == r[i]);
            }
        }
        assert forall|i: int| 0 <= i < out.len() implies r.contains(#[trigger] out[i]) && counts(out[i], ports, now) by {
            if i < rest.len() {
                assert(out[i] == rest[i]);
                assert(init.contains(rest[i]));
                let m = choose|m: int| 0 <= m < init.len() && init[m] == rest[i];
                assert(r[m] == init[m]);
            } else {
                assert(out[i] == r[r.len() - 1]);
            }
        }
        if keys_unique(r) {
            assert forall|a: int, b: int| 0 <= a < b < init.len() implies #[trigger] init[a].0 != #[trigger] init[b].0 by {
                assert(init[a] == r[a] && init[b] == r[b]);
            }
            assert forall|a: int, b: int| 0 <= a < b < out.len() implies #[trigger] out[a].0 != #[trigger] out[b].0 by {
                if b < rest.len() {
                    assert(out[a] == rest[a] && out[b] == rest[b]);
                } else {
                    assert(out[a] == rest[a]);
                    assert(init.contains(rest[a]));
                    let m = choose|m: int| 0 <= m < init.len() && init[m] == rest[a];
                    assert(r[m] == init[m]);
                    assert(out[b] == r[r.len() - 1]);
                }
            }
        }
    }
}

/// With one BPDU per port, at most one entry makes the best offer.
proof fn lemma_best_unique(l: Seq<(InterfaceId, StpReceived)>, k1: int, k2: int)
    requires
        keys_unique(l),
        best_at(l, k1),
        best_at(l, k2),
    ensures
        k1 == k2,
{
    lemma_better_offer_order();
    if k1 != k2 {
        if k1 < k2 {
            assert(l[k1].0 != l[k2].0);
        } else {
            assert(l[k2].0 != l[k1].0);
        }
        assert(offer(l[k1]) != offer(l[k2]));
        assert(!better_offer(offer(l[k1]), offer(l[k2])));
        assert(!better_offer(offer(l[k2]), offer(l[k1])));
    }
}

/// Where the BPDU heard on `p` is.
fn heard_on(l: &Vec<(InterfaceId, StpReceived)>, p: InterfaceId) -> (r: Option<usize>)
    requires
        keys_unique(l@),
    ensures
        match r {
            Some(i) => i < l@.len() && has_key(l@, p) && key_index(l@, p) == i,
            None => !has_key(l@, p),
        },
{
    let mut i: usize = 0;
    while i < l.len()
        invariant
            keys_unique(l@),
            i <= l@.len(),
            forall|j: int| 0 <= j < i ==> #[trigger] l@[j].0 != p,
        decreases l@.len() - i,
    {
        if l[i].0.0 == p.0 {
            proof {
                lemma_key_index(l@, i as int);
            }
            return Some(i);
        }
        i = i + 1;
    }
    None
}

/// Whether port `p` did not block, or was no member, among `ports`.
fn forwarded_or_absent(ports: &Vec<(InterfaceId, StpPortRole, StpPortState)>, p: InterfaceId) -> (r: bool)
    ensures
        r == forall|i: int| 0 <= i < ports@.len() && #[trigger] ports@[i].0 == p ==> ports@[i].2 != StpPortState::Blocking,
{
    let mut i: usize = 0;
    while i < ports.len()
        invariant
            i <= ports@.len(),
            forall|j: int| 0 <= j < i && #[trigger] ports@[j].0 == p ==> ports@[j].2 != StpPortState::Blocking,
        decreases ports@.len() - i,
    {
        if ports[i].0.0 == p.0 && ports[i].2 == StpPortState::Blocking {
            return false;
        }
        i = i + 1;
    }
    true
}

/// Whether `p` is an edge port under `policies`, computed.
fn edge_exec(policies: &Vec<(InterfaceId, StpPortConfig)>, p: InterfaceId) -> (r: bool)
    requires
        keys_unique(policies@),
    ensures
        r == edge_port(policies@, p),
{
    let mut i: usize = 0;
    while i < policies.len()
        invariant
            keys_unique(policies@),
            i <= policies@.len(),
            forall|j: int| 0 <= j < i ==> #[trigger] policies@[j].0 != p,
        decreases policies@.len() - i,
    {
        if policies[i].0.0 == p.0 {
            proof {
                lemma_key_index(policies@, i as int);
            }
            return policies[i].1.portfast;
        }
        i = i + 1;
    }
    false
}

/// The cost of the link of port `p`: its configured cost, else the default cost.
pub open spec fn link_cost_of(policies: Seq<(InterfaceId, StpPortConfig)>, p: InterfaceId) -> u32 {
    if has_key(policies, p) {
        match value_of(policies, p).cost {
            Some(c) => c,
            None => STP_LINK_COST,
        }
    } else {
        STP_LINK_COST
    }
}

/// Whether root guard is on for port `p`.
pub open spec fn guarded_port(policies: Seq<(InterfaceId, StpPortConfig)>, p: InterfaceId) -> bool {
    has_key(policies, p) && value_of(policies, p).root_guard
}

/// Whether BPDU guard is on for port `p`.
pub open spec fn bpdu_guarded(policies: Seq<(InterfaceId, StpPortConfig)>, p: InterfaceId) -> bool {
    has_key(policies, p) && value_of(policies, p).bpdu_guard
}

/// Whether BPDU guard is on for port `p`, computed.
fn bpdu_guard_on(policies: &Vec<(InterfaceId, StpPortConfig)>, p: InterfaceId) -> (r: bool)
    requires
        keys_unique(policies@),
    ensures
        r == bpdu_guarded(policies@, p),
{
    let mut i: usize = 0;
    while i < policies.len()
        invariant
            keys_unique(policies@),
            i <= policies@.len(),
            forall|j: int| 0 <= j < i ==> #[trigger] policies@[j].0 != p,
        decreases policies@.len() - i,
    {
        if policies[i].0.0 == p.0 {
            proof {
                lemma_key_index(policies@, i as int);
            }
            return policies[i].1.bpdu_guard;
        }
        i = i + 1;
    }
    false
}

/// The link cost and root guard of port `p`, computed.
fn reception(policies: &Vec<(InterfaceId, StpPortConfig)>, p: InterfaceId) -> (r: (u32, bool))
    requires
        keys_unique(policies@),
    ensures
        r == (link_cost_of(policies@, p), guarded_port(policies@, p)),
{
    let mut i: usize = 0;
    while i < policies.len()
        invariant
            keys_unique(policies@),
            i <= policies@.len(),
            forall|j: int| 0 <= j < i ==> #[trigger] policies@[j].0 != p,
        decreases policies@.len() - i,
    {
        if policies[i].0.0 == p.0 {
            proof {
                lemma_key_index(policies@, i as int);
            }
            let cost = match policies[i].1.cost {
                Some(c) => c,
                None => STP_LINK_COST,
            };
            return (cost, policies[i].1.root_guard);
        }
        i = i + 1;
    }
    (STP_LINK_COST, false)
}

/// The timed state of a port, computed.
fn timed_state_exec(target: StpPortState, edge: bool, start: u64, now: u64) -> (r: StpPortState)
    ensures
        r == timed_state(target, edge, start, now),
{
    match target {
        StpPortState::Blocking => StpPortState::Blocking,
        _ => {
            if edge {
                StpPortState::Forwarding
            } else if now < start {
                StpPortState::Listening
            } else if now - start >= 2 * STP_FORWARD_DELAY_US {
                StpPortState::Forwarding
            } else if now - start >= STP_FORWARD_DELAY_US {
                StpPortState::Learning
            } else {
                StpPortState::Listening
            }
        },
    }
}

impl StpInstance {
    /// When port `p` started toward forwarding, or `now` when it blocks or is no member.
    fn start_time(&self, p: InterfaceId, now: u64) -> (r: u64)
        requires
            instance_wf(self@),
        ensures
            r == start_of(self@, p, now),
    {
        let mut j: usize = 0;
        while j < self.ports.len()
            invariant
                instance_wf(self@),
                j <= self@.ports.len(),
                forall|k: int| 0 <= k < j ==> !((#[trigger] self@.ports[k]).0 == p && self@.ports[k].2 != StpPortState::Blocking),
            decreases self@.ports.len() - j,
        {
            let blocking = match self.ports[j].2 {
                StpPortState::Blocking => true,
                _ => false,
            };
            if self.ports[j].0.0 == p.0 && !blocking {
                proof {
                    let k = choose|k: int|
                        0 <= k < self@.ports.len() && (#[trigger] self@.ports[k]).0 == p && self@.ports[k].2 != StpPortState::Blocking;
                    if k != j {
                        if k < j {
                            assert(self@.ports[k].0 != self@.ports[j as int].0);
                        } else {
                            assert(self@.ports[j as int].0 != self@.ports[k].0);
                        }
                    }
                }
                return self.since[j];
            }
            j = j + 1;
        }
        now
    }
}

impl StpInstance {
    /// An instance that has computed nothing: root 0 at no cost, no ports, nothing heard.
    pub fn new() -> (r: StpInstance)
        ensures
            r@ == empty_instance(),
            instance_wf(r@),
    {
        let r = StpInstance { root_id: 0, root_cost: 0, root_port: None, ports: Vec::new(), since: Vec::new(), received: Vec::new() };
        assert(r@ =~= empty_instance());
        r
    }

    /// Recompute the tree of bridge `bridge` over the member `ports` at `now`: BPDUs that no
    /// longer count are dropped, the root is elected and each port gets its role. Returns the
    /// ports that start blocking.
    pub fn recompute(
        &mut self,
        bridge: u64,
        ports: &Vec<InterfaceId>,
        policies: &Vec<(InterfaceId, StpPortConfig)>,
        now: u64,
    ) -> (r: Vec<InterfaceId>)
        requires
            instance_wf(old(self)@),
            ids_distinct(ports@),
            keys_unique(policies@),
        ensures
            instance_wf(final(self)@),
            final(self)@ == recompute_spec(old(self)@, bridge, ports@, policies@, now),
            forall|p: InterfaceId| #[trigger] r@.contains(p) <==> newly_blocked(old(self)@.ports, final(self)@.ports, p),
    {
        let ghost before = self@;
        proof {
            lemma_live(before.received, ports@, now);
            lemma_better_offer_order();
        }
        let mut l: Vec<(InterfaceId, StpReceived)> = Vec::new();
        let mut i: usize = 0;
        while i < self.received.len()
            invariant
                self@ == before,
                i <= before.received.len(),
                l@ == live(before.received.take(i as int), ports@, now),
            decreases before.received.len() - i,
        {
            let e = self.received[i];
            proof {
                assert(before.received.take(i + 1).drop_last() =~= before.received.take(i as int));
                assert(before.received.take(i + 1).last() == e);
            }
            if contains_port(ports, e.0) && e.1.expires_at > now {
                l.push(e);
            }
            i = i + 1;
        }
        proof {
            assert(before.received.take(before.received.len() as int) =~= before.received);
        }
        let ghost lv = l@;
        let mut best: Option<usize> = None;
        let mut k: usize = 0;
        while k < l.len()
            invariant
                l@ == lv,
                k <= lv.len(),
                match best {
                    None => forall|j: int| 0 <= j < k ==> (#[trigger] lv[j]).1.guarded,
                    Some(b) => b < k && !lv[b as int].1.guarded && forall|j: int|
                        0 <= j < k && !lv[j].1.guarded ==> !better_offer(#[trigger] offer(lv[j]), offer(lv[b as int])),
                },
            decreases lv.len() - k,
        {
            let take = if l[k].1.guarded {
                false
            } else {
                match best {
                    None => true,
                    Some(b) => better_offer_exec(offer_exec(l[k]), offer_exec(l[b])),
                }
            };
            if take {
                proof {
                    lemma_better_offer_order();
                    if let Some(b) = best {
                        assert forall|j: int| 0 <= j < k + 1 && !lv[j].1.guarded implies !better_offer(
                            #[trigger] offer(lv[j]),
                            offer(lv[k as int]),
                        ) by {
                            if j < k && better_offer(offer(lv[j]), offer(lv[k as int])) {
                                assert(better_offer(offer(lv[j]), offer(lv[b as int])));
                            }
                        }
                    }
                }
                best = Some(k);
            } else {
                proof {
                    lemma_better_offer_order();
                    if let Some(b) = best {
                        if !lv[k as int].1.guarded {
                            assert(!better_offer(offer(lv[k as int]), offer(lv[b as int])));
                        }
                    }
                }
            }
            k = k + 1;
        }
        let bridge_offer = ((bridge, 0u32, bridge, 0u16), 0u64);
        let (root_id, root_cost, root_port) = match best {
            Some(b) => {
                let o = offer_exec(l[b]);
                proof {
                    assert(best_at(lv, b as int));
                    assert forall|k2: int| best_at(lv, k2) implies k2 == b by {
                        lemma_best_unique(lv, k2, b as int);
                    }
                }
                if better_offer_exec(o, bridge_offer) {
                    ((o.0).0, (o.0).1, Some(l[b].0))
                } else {
                    (bridge, 0u32, None)
                }
            },
            None => {
                assert(!has_better_root(lv, bridge));
                (bridge, 0u32, None)
            },
        };
        let ghost root = (root_id, root_cost, root_port);
        assert(root == elect(lv, bridge));
        let mut roles: Vec<(InterfaceId, StpPortRole, StpPortState)> = Vec::new();
        let mut starts: Vec<u64> = Vec::new();
        let mut m: usize = 0;
        while m < ports.len()
            invariant
                self@ == before,
                instance_wf(before),
                keys_unique(policies@),
                l@ == lv,
                keys_unique(lv),
                root == (root_id, root_cost, root_port),
                m <= ports@.len(),
                roles@ == ports@.take(m as int).map_values(
                    |p: InterfaceId|
                        (
                            p,
                            port_role(lv, root, bridge, p).0,
                            timed_state(port_role(lv, root, bridge, p).1, edge_port(policies@, p), start_of(before, p, now), now),
                        ),
                ),
                starts@ == ports@.take(m as int).map_values(
                    |p: InterfaceId|
                        if port_role(lv, root, bridge, p).1 == StpPortState::Forwarding {
                            start_of(before, p, now)
                        } else {
                            now
                        },
                ),
            decreases ports@.len() - m,
        {
            let p = ports[m];
            let is_root = match root_port {
                Some(rp) => rp.0 == p.0,
                None => false,
            };
            let (role, state) = if is_root {
                (StpPortRole::Root, StpPortState::Forwarding)
            } else {
                match heard_on(&l, p) {
                    None => (StpPortRole::Designated, StpPortState::Forwarding),
                    Some(h) => {
                        let b = l[h].1.bpdu;
                        if better_exec((root_id, root_cost, bridge, port_number_exec(p)), (b.root_id, b.root_cost, b.bridge_id, b.port_id)) {
                            (StpPortRole::Designated, StpPortState::Forwarding)
                        } else {
                            (StpPortRole::Alternate, StpPortState::Blocking)
                        }
                    },
                }
            };
            let start = self.start_time(p, now);
            let edge = edge_exec(policies, p);
            roles.push((p, role, timed_state_exec(state, edge, start, now)));
            let kept = match state {
                StpPortState::Blocking => now,
                _ => start,
            };
            starts.push(kept);
            proof {
                assert(ports@.take(m + 1) =~= ports@.take(m as int).push(p));
                assert(roles@ =~= ports@.take(m + 1).map_values(
                    |p: InterfaceId|
                        (
                            p,
                            port_role(lv, root, bridge, p).0,
                            timed_state(port_role(lv, root, bridge, p).1, edge_port(policies@, p), start_of(before, p, now), now),
                        ),
                ));
                assert(starts@ =~= ports@.take(m + 1).map_values(
                    |p: InterfaceId|
                        if port_role(lv, root, bridge, p).1 == StpPortState::Forwarding {
                            start_of(before, p, now)
                        } else {
                            now
                        },
                ));
            }
            m = m + 1;
        }
        proof {
            assert(ports@.take(ports@.len() as int) =~= ports@);
        }
        let mut blocked: Vec<InterfaceId> = Vec::new();
        let mut n: usize = 0;
        while n < roles.len()
            invariant
                self@ == before,
                n <= roles@.len(),
                forall|p: InterfaceId| #[trigger] blocked@.contains(p) <==> (exists|i: int|
                    0 <= i < n && #[trigger] roles@[i].0 == p && roles@[i].2 == StpPortState::Blocking) && (forall|i: int|
                    0 <= i < before.ports.len() && #[trigger] before.ports[i].0 == p ==> before.ports[i].2
                        != StpPortState::Blocking),
            decreases roles@.len() - n,
        {
            let (p, _, state) = roles[n];
            let ghost old = blocked@;
            let pushed = state == StpPortState::Blocking && forwarded_or_absent(&self.ports, p);
            if pushed {
                blocked.push(p);
            }
            proof {
                assert(self.ports@ == before.ports);
                assert forall|q: InterfaceId| #[trigger] blocked@.contains(q) <==> (exists|i: int|
                    0 <= i < n + 1 && #[trigger] roles@[i].0 == q && roles@[i].2 == StpPortState::Blocking) && (forall|i: int|
                    0 <= i < before.ports.len() && #[trigger] before.ports[i].0 == q ==> before.ports[i].2
                        != StpPortState::Blocking) by {
                    let fwd = forall|i: int|
                        0 <= i < before.ports.len() && #[trigger] before.ports[i].0 == q ==> before.ports[i].2
                            != StpPortState::Blocking;
                    let hit = exists|i: int| 0 <= i < n && #[trigger] roles@[i].0 == q && roles@[i].2 == StpPortState::Blocking;
                    assert(old.contains(q) <==> hit && fwd);
                    if pushed {
                        assert(blocked@ == old.push(p));
                        if old.contains(q) {
                            let i = choose|i: int| 0 <= i < old.len() && old[i] == q;
                            assert(blocked@[i] == q);
                        }
                        if blocked@.contains(q) && !old.contains(q) {
                            let i = choose|i: int| 0 <= i < blocked@.len() && blocked@[i] == q;
                            if i < old.len() {
                                assert(old[i] == q);
                            }
                            assert(q == p);
                        }
                        if q == p {
                            assert(blocked@[old.len() as int] == q);
                            assert(roles@[n as int].0 == q);
                        }
                    } else {
                        if q == p && state == StpPortState::Blocking {
                            assert(roles@[n as int].0 == q);
                            assert(!fwd);
                        }
                    }
                    if exists|i: int| 0 <= i < n + 1 && #[trigger] roles@[i].0 == q && roles@[i].2 == StpPortState::Blocking {
                        let i = choose|i: int| 0 <= i < n + 1 && #[trigger] roles@[i].0 == q && roles@[i].2 == StpPortState::Blocking;
                        if i == n {
                            assert(q == p);
                            assert(state == StpPortState::Blocking);
                        } else {
                            assert(hit);
                        }
                    }
                }
            }
            n = n + 1;
        }
        self.root_id = root_id;
        self.root_cost = root_cost;
        self.root_port = root_port;
        self.ports = roles;
        self.since = starts;
        self.received = l;
        proof {
            assert(self@ =~= recompute_spec(before, bridge, ports@, policies@, now));
            assert forall|a: int, b: int| 0 <= a < b < self@.ports.len() implies #[trigger] self@.ports[a].0 != #[trigger] self@.ports[b].0 by {
                assert(self@.ports[a].0 == ports@[a]);
                assert(self@.ports[b].0 == ports@[b]);
            }
        }
        blocked
    }
}

/// Heard BPDUs of which root guard holds back at least one fewer than all have a best
/// offer.
proof fn lemma_best_exists(l: Seq<(InterfaceId, StpReceived)>)
    requires
        exists|i: int| 0 <= i < l.len() && !(#[trigger] l[i]).1.guarded,
    ensures
        exists|k: int| best_at(l, k),
    decreases l.len(),
{
    lemma_better_offer_order();
    let last = l.len() - 1;
    let init = l.drop_last();
    if exists|i: int| 0 <= i < init.len() && !(#[trigger] init[i]).1.guarded {
        lemma_best_exists(init);
        let k = choose|k: int| best_at(init, k);
        assert(l[k] == init[k]);
        if !l[last].1.guarded && better_offer(offer(l[last]), offer(l[k])) {
            assert forall|j: int| 0 <= j < l.len() && !l[j].1.guarded implies !better_offer(
                #[trigger] offer(l[j]),
                offer(l[last]),
            ) by {
                if j < last {
                    assert(l[j] == init[j]);
                    assert(!better_offer(offer(init[j]), offer(init[k])));
                }
            }
            assert(best_at(l, last));
        } else {
            assert forall|j: int| 0 <= j < l.len() && !l[j].1.guarded implies !better_offer(
                #[trigger] offer(l[j]),
                offer(l[k]),
            ) by {
                if j < last {
                    assert(l[j] == init[j]);
                }
            }
            assert(best_at(l, k));
        }
    } else {
        let i = choose|i: int| 0 <= i < l.len() && !(#[trigger] l[i]).1.guarded;
        if i < last {
            assert(init[i] == l[i]);
        }
        assert forall|j: int| 0 <= j < l.len() && !l[j].1.guarded implies !better_offer(
            #[trigger] offer(l[j]),
            offer(l[last]),
        ) by {
            if j < last {
                assert(init[j] == l[j]);
            }
        }
        assert(best_at(l, last));
    }
}

/// Dropping the BPDUs that no longer count a second time drops nothing more.
proof fn lemma_live_idempotent(r: Seq<(InterfaceId, StpReceived)>, ports: Seq<InterfaceId>, now: u64)
    ensures
        live(live(r, ports, now), ports, now) == live(r, ports, now),
    decreases r.len(),
{
    if r.len() > 0 {
        lemma_live_idempotent(r.drop_last(), ports, now);
        let rest = live(r.drop_last(), ports, now);
        if counts(r.last(), ports, now) {
            let out = rest.push(r.last());
            assert(out.drop_last() =~= rest);
        }
    }
}

/// The election: the root port, when there is one, hears the best offer of all those root
/// guard does not hold back, which beats this bridge and gives the root and its cost;
/// without a root port no such BPDU beats this bridge, which is the root at no cost. The
/// root port is a member port.
pub proof fn lemma_root_port_hears_best_offer(
    v: InstanceView,
    bridge: u64,
    ports: Seq<InterfaceId>,
    policies: Seq<(InterfaceId, StpPortConfig)>,
    now: u64,
)
    requires
        instance_wf(v),
    ensures
        ({
            let w = recompute_spec(v, bridge, ports, policies, now);
            match w.root_port {
                Some(p) => {
                    &&& has_key(w.received, p)
                    &&& ports.contains(p)
                    &&& !value_of(w.received, p).guarded
                    &&& better_offer(offer((p, value_of(w.received, p))), own_offer(bridge))
                    &&& forall|j: int|
                        0 <= j < w.received.len() && !w.received[j].1.guarded ==> !better_offer(
                            #[trigger] offer(w.received[j]),
                            offer((p, value_of(w.received, p))),
                        )
                    &&& w.root_id == value_of(w.received, p).bpdu.root_id
                    &&& w.root_cost == path_cost(
                        value_of(w.received, p).bpdu.root_cost,
                        value_of(w.received, p).link_cost,
                    )
                },
                None => {
                    &&& w.root_id == bridge
                    &&& w.root_cost == 0
                    &&& forall|j: int|
                        0 <= j < w.received.len() && !w.received[j].1.guarded ==> !better_offer(
                            #[trigger] offer(w.received[j]),
                            own_offer(bridge),
                        )
                },
            }
        }),
{
    lemma_live(v.received, ports, now);
    lemma_better_offer_order();
    let l = live(v.received, ports, now);
    if has_better_root(l, bridge) {
        let k = choose|k: int| best_at(l, k) && better_offer(offer(l[k]), own_offer(bridge));
        lemma_key_index(l, k);
        assert(counts(l[k], ports, now));
    } else {
        assert forall|j: int| 0 <= j < l.len() && !l[j].1.guarded implies !better_offer(
            #[trigger] offer(l[j]),
            own_offer(bridge),
        ) by {
            if better_offer(offer(l[j]), own_offer(bridge)) {
                lemma_best_exists(l);
                let k = choose|k: int| best_at(l, k);
                assert(!better_offer(offer(l[j]), offer(l[k])));
                if offer(l[j]) != offer(l[k]) {
                    assert(better_offer(offer(l[k]), offer(l[j])));
                }
                assert(better_offer(offer(l[k]), own_offer(bridge)));
            }
        }
    }
}

/// Roles decide states: exactly the root port has the root role, and a port blocks exactly
/// when it is an alternate.
pub proof fn lemma_roles_decide_states(
    v: InstanceView,
    bridge: u64,
    ports: Seq<InterfaceId>,
    policies: Seq<(InterfaceId, StpPortConfig)>,
    now: u64,
)
    ensures
        ({
            let w = recompute_spec(v, bridge, ports, policies, now);
            forall|i: int|
                0 <= i < w.ports.len() ==> {
                    &&& (#[trigger] w.ports[i]).0 == ports[i]
                    &&& (w.ports[i].1 == StpPortRole::Root <==> w.root_port == Some(ports[i]))
                    &&& (w.ports[i].2 == StpPortState::Blocking <==> w.ports[i].1 == StpPortRole::Alternate)
                }
        }),
{
}

/// A bridge that hears no BPDU that still counts is the root, at no cost, and every member
/// port is designated and on its way to forwarding.
pub proof fn lemma_lone_bridge_is_root(
    v: InstanceView,
    bridge: u64,
    ports: Seq<InterfaceId>,
    policies: Seq<(InterfaceId, StpPortConfig)>,
    now: u64,
)
    requires
        live(v.received, ports, now).len() == 0,
    ensures
        ({
            let w = recompute_spec(v, bridge, ports, policies, now);
            &&& w.root_id == bridge
            &&& w.root_cost == 0
            &&& w.root_port is None
            &&& forall|i: int|
                0 <= i < w.ports.len() ==> (#[trigger] w.ports[i]).1 == StpPortRole::Designated && w.ports[i].2
                    != StpPortState::Blocking
        }),
{
    let l = live(v.received, ports, now);
    assert(!has_better_root(l, bridge));
    assert forall|p: InterfaceId| !has_key(l, p) by {}
}

/// The forward delay: a port whose role lets it forward does so at once when it is an edge
/// port; any other listens for the forward delay after it started toward forwarding, then
/// learns for the forward delay, then forwards. A port already on its way keeps the time
/// it started; one that was blocking, or no member, starts now.
pub proof fn lemma_forward_delay(
    v: InstanceView,
    bridge: u64,
    ports: Seq<InterfaceId>,
    policies: Seq<(InterfaceId, StpPortConfig)>,
    now: u64,
)
    ensures
        ({
            let w = recompute_spec(v, bridge, ports, policies, now);
            forall|i: int|
                0 <= i < w.ports.len() && (#[trigger] w.ports[i]).2 != StpPortState::Blocking ==> {
                    &&& w.since[i] == start_of(v, ports[i], now)
                    &&& (!on_the_way(v, ports[i]) ==> w.since[i] == now)
                    &&& (edge_port(policies, ports[i]) ==> w.ports[i].2 == StpPortState::Forwarding)
                    &&& (!edge_port(policies, ports[i]) ==> {
                        &&& (w.ports[i].2 == StpPortState::Listening <==> now - w.since[i] < STP_FORWARD_DELAY_US)
                        &&& (w.ports[i].2 == StpPortState::Learning <==> STP_FORWARD_DELAY_US <= now - w.since[i] < 2
                            * STP_FORWARD_DELAY_US)
                        &&& (w.ports[i].2 == StpPortState::Forwarding <==> now - w.since[i] >= 2 * STP_FORWARD_DELAY_US)
                    })
                }
        }),
{
}

/// After recomputing, a member port other than the root port is an alternate port and blocks
/// exactly when a BPDU still heard on it is at least as good as the one this bridge would send
/// there: the elected root, this bridge's own cost to that root, its bridge identifier and the
/// port's identifier. Otherwise it is a designated port. So of the two ends of a link between
/// two bridges that are not the root, the one with the worse vector gives way.
pub proof fn lemma_designated_or_alternate(
    v: InstanceView,
    bridge: u64,
    ports: Seq<InterfaceId>,
    policies: Seq<(InterfaceId, StpPortConfig)>,
    now: u64,
)
    ensures
        ({
            let w = recompute_spec(v, bridge, ports, policies, now);
            forall|i: int|
                0 <= i < w.ports.len() && w.root_port != Some((#[trigger] w.ports[i]).0) ==> if has_key(
                    w.received,
                    w.ports[i].0,
                ) && !better(
                    (w.root_id, w.root_cost, bridge, port_number(w.ports[i].0)),
                    advertised(value_of(w.received, w.ports[i].0).bpdu),
                ) {
                    w.ports[i].1 == StpPortRole::Alternate && w.ports[i].2 == StpPortState::Blocking
                } else {
                    w.ports[i].1 == StpPortRole::Designated
                }
        }),
{
    let w = recompute_spec(v, bridge, ports, policies, now);
    let l = live(v.received, ports, now);
    let root = elect(l, bridge);
    assert forall|i: int|
        0 <= i < w.ports.len() && w.root_port != Some((#[trigger] w.ports[i]).0) implies if has_key(
            w.received,
            w.ports[i].0,
        ) && !better(
            (w.root_id, w.root_cost, bridge, port_number(w.ports[i].0)),
            advertised(value_of(w.received, w.ports[i].0).bpdu),
        ) {
            w.ports[i].1 == StpPortRole::Alternate && w.ports[i].2 == StpPortState::Blocking
        } else {
            w.ports[i].1 == StpPortRole::Designated
        } by {
        let p = ports[i];
        assert(w.ports[i] == (
            p,
            port_role(l, root, bridge, p).0,
            timed_state(port_role(l, root, bridge, p).1, edge_port(policies, p), start_of(v, p, now), now),
        ));
        assert(w.received == l);
        assert(w.root_id == root.0 && w.root_cost == root.1 && w.root_port == root.2);
    }
}

/// Recomputing again with nothing new heard changes nothing and blocks no further port.
pub proof fn lemma_recompute_stable(
    v: InstanceView,
    bridge: u64,
    ports: Seq<InterfaceId>,
    policies: Seq<(InterfaceId, StpPortConfig)>,
    now: u64,
)
    requires
        ids_distinct(ports),
    ensures
        recompute_spec(recompute_spec(v, bridge, ports, policies, now), bridge, ports, policies, now) == recompute_spec(v, bridge, ports, policies, now),
        forall|p: InterfaceId|
            !newly_blocked(
                recompute_spec(v, bridge, ports, policies, now).ports,
                recompute_spec(recompute_spec(v, bridge, ports, policies, now), bridge, ports, policies, now).ports,
                p,
            ),
{
    lemma_live_idempotent(v.received, ports, now);
    let w = recompute_spec(v, bridge, ports, policies, now);
    let w2 = recompute_spec(w, bridge, ports, policies, now);
    let l = live(v.received, ports, now);
    let root = elect(l, bridge);
    assert(w2.received == w.received);
    assert forall|i: int| 0 <= i < ports.len() implies port_role(l, root, bridge, #[trigger] ports[i]).1
        == StpPortState::Forwarding ==> start_of(w, ports[i], now) == w.since[i] by {
        let p = ports[i];
        if port_role(l, root, bridge, p).1 == StpPortState::Forwarding {
            assert(w.ports[i].0 == p && w.ports[i].2 != StpPortState::Blocking);
            assert(on_the_way(w, p));
            let j = choose|j: int|
                0 <= j < w.ports.len() && (#[trigger] w.ports[j]).0 == p && w.ports[j].2 != StpPortState::Blocking;
            assert(w.ports[j].0 == ports[j]);
            if j != i {
                if j < i {
                    assert(ports[j] != ports[i]);
                } else {
                    assert(ports[i] != ports[j]);
                }
            }
        }
    }
    assert(w2.since =~= w.since);
    assert(w2.ports =~= w.ports);
    assert(w2 == w);
    assert forall|p: InterfaceId| !newly_blocked(w.ports, w2.ports, p) by {
        if exists|i: int| 0 <= i < w2.ports.len() && #[trigger] w2.ports[i].0 == p && w2.ports[i].2 == StpPortState::Blocking {
            let i = choose|i: int| 0 <= i < w2.ports.len() && #[trigger] w2.ports[i].0 == p && w2.ports[i].2 == StpPortState::Blocking;
            assert(w.ports[i].0 == p);
        }
    }
}

/// A hardware address as a 48-bit number.
pub open spec fn mac_value(m: MacAddress) -> int {
    m.0@[0] * 0x100_0000_0000 + m.0@[1] * 0x1_0000_0000 + m.0@[2] * 0x100_0000 + m.0@[3] * 0x1_0000 + m.0@[4]
        * 0x100 + m.0@[5]
}

/// The lowest hardware address among the first `k` interfaces, as a number.
pub open spec fn lowest_mac(v: DeviceView, k: int) -> int
    decreases k,
{
    if k <= 1 {
        mac_value(v.interfaces[0].0.mac_address)
    } else {
        let rest = lowest_mac(v, k - 1);
        let m = mac_value(v.interfaces[k - 1].0.mac_address);
        if m < rest {
            m
        } else {
            rest
        }
    }
}

/// The bridge identifier of the device in `vlan`: the priority 0x8000 plus the VLAN number
/// above the lowest hardware address; none without interfaces.
pub open spec fn bridge_spec(v: DeviceView, vlan: u16) -> Option<u64> {
    if v.interfaces.len() == 0 {
        None
    } else {
        Some(((0x8000 + vlan) * 0x1_0000_0000_0000 + lowest_mac(v, v.interfaces.len() as int)) as u64)
    }
}

/// Whether slot `j` takes part in the tree of `vlan`: an up switchport that carries a VLAN
/// of the database.
pub open spec fn stp_member(v: DeviceView, vlan: u16, j: int) -> bool {
    &&& up_spec(v, InterfaceId((j + 1) as u64))
    &&& v.interfaces[j].1.switchport matches Some(sp) && carries(sp, vlan)
    &&& has_key(v.vlans, vlan)
}

/// The member ports of the tree of `vlan` among the first `k` interfaces, in order.
pub open spec fn members_upto(v: DeviceView, vlan: u16, k: int) -> Seq<InterfaceId>
    decreases k,
{
    if k <= 0 {
        Seq::empty()
    } else {
        let rest = members_upto(v, vlan, k - 1);
        if stp_member(v, vlan, k - 1) {
            rest.push(InterfaceId(k as u64))
        } else {
            rest
        }
    }
}

/// The member ports of the tree of `vlan`, in interface order.
pub open spec fn stp_members(v: DeviceView, vlan: u16) -> Seq<InterfaceId> {
    members_upto(v, vlan, v.interfaces.len() as int)
}

/// Member lists name each port once, in increasing order, among the first `k` interfaces.
proof fn lemma_members_upto(v: DeviceView, vlan: u16, k: int)
    requires
        0 <= k <= 0xffff,
    ensures
        forall|i: int, j: int| 0 <= i < j < members_upto(v, vlan, k).len() ==> (#[trigger] members_upto(v, vlan, k)[i]).0
            < (#[trigger] members_upto(v, vlan, k)[j]).0,
        forall|i: int| 0 <= i < members_upto(v, vlan, k).len() ==> 1 <= (#[trigger] members_upto(v, vlan, k)[i]).0 <= k,
        forall|j: int| 0 <= j < k ==> (stp_member(v, vlan, j) <==> members_upto(v, vlan, k).contains(InterfaceId((j + 1) as u64))),
    decreases k,
{
    if k > 0 {
        lemma_members_upto(v, vlan, k - 1);
        let rest = members_upto(v, vlan, k - 1);
        let out = members_upto(v, vlan, k);
        let new_id = InterfaceId(k as u64);
        if stp_member(v, vlan, k - 1) {
            assert(out == rest.push(new_id));
            assert forall|i: int, j: int| 0 <= i < j < out.len() implies (#[trigger] out[i]).0 < (#[trigger] out[j]).0 by {
                if j < rest.len() {
                    assert(out[i] == rest[i] && out[j] == rest[j]);
                } else {
                    assert(out[i] == rest[i]);
                }
            }
            assert forall|i: int| 0 <= i < out.len() implies 1 <= (#[trigger] out[i]).0 <= k by {
                if i < rest.len() {
                    assert(out[i] == rest[i]);
                }
            }
        } else {
            assert(out == rest);
        }
        assert forall|j: int| 0 <= j < k implies (stp_member(v, vlan, j) <==> out.contains(InterfaceId((j + 1) as u64))) by {
            let id = InterfaceId((j + 1) as u64);
            if j < k - 1 {
                assert(id.0 == j + 1);
                if rest.contains(id) {
                    let m = choose|m: int| 0 <= m < rest.len() && rest[m] == id;
                    assert(out[m] == rest[m]);
                }
                if out.contains(id) {
                    let m = choose|m: int| 0 <= m < out.len() && out[m] == id;
                    if m < rest.len() {
                        assert(out[m] == rest[m]);
                        assert(rest.contains(id));
                    } else {
                        assert(out[m] == new_id);
                    }
                }
            } else {
                assert(id == new_id);
                if stp_member(v, vlan, j) {
                    assert(out[out.len() - 1] == id);
                }
                if out.contains(id) && !stp_member(v, vlan, j) {
                    let m = choose|m: int| 0 <= m < out.len() && out[m] == id;
                    assert(out[m] == rest[m]);
                    assert(rest[m].0 <= k - 1);
                }
            }
        }
    }
}

/// Member lists name each port once.
pub proof fn lemma_members_distinct(v: DeviceView, vlan: u16)
    requires
        v.interfaces.len() <= 0xffff,
    ensures
        ids_distinct(stp_members(v, vlan)),
{
    lemma_members_upto(v, vlan, v.interfaces.len() as int);
    let s = stp_members(v, vlan);
    assert forall|i: int, j: int| 0 <= i < j < s.len() implies s[i] != s[j] by {
        assert(s[i].0 < s[j].0);
    }
}

/// A hardware address as a number, computed.
pub(crate) fn mac_value_exec(m: MacAddress) -> (r: u64)
    ensures
        r == mac_value(m),
        r < 0x1_0000_0000_0000,
{
    (m.0[0] as u64) * 0x100_0000_0000 + (m.0[1] as u64) * 0x1_0000_0000 + (m.0[2] as u64) * 0x100_0000 + (m.0[3] as u64)
        * 0x1_0000 + (m.0[4] as u64) * 0x100 + (m.0[5] as u64)
}

impl Device {
    /// The bridge identifier of the device in `vlan`: the priority 0x8000 plus the VLAN
    /// number above the lowest hardware address of its interfaces.
    pub fn bridge_id(&self, vlan: VlanId) -> (r: Option<u64>)
        requires
            device_wf(self@),
        ensures
            r == bridge_spec(self@, vlan@),
    {
        let n = self.interface_count();
        if n == 0 {
            return None;
        }
        let ghost v = self@;
        let first = self.interface(InterfaceId(1)).unwrap().0.mac_address;
        let mut low = mac_value_exec(first);
        let mut k: usize = 1;
        while k < n
            invariant
                v == self@,
                device_wf(v),
                n == v.interfaces.len(),
                1 <= k <= n,
                low == lowest_mac(v, k as int),
                low < 0x1_0000_0000_0000,
            decreases n - k,
        {
            let m = mac_value_exec(self.interface(InterfaceId((k + 1) as u64)).unwrap().0.mac_address);
            if m < low {
                low = m;
            }
            k = k + 1;
        }
        let id = (0x8000u64 + vlan.get() as u64) * 0x1_0000_0000_0000 + low;
        Some(id)
    }

    /// The member ports of the tree of `vlan`, in interface order.
    fn stp_member_list(&self, vlan: VlanId) -> (r: Vec<InterfaceId>)
        requires
            device_wf(self@),
        ensures
            r@ == stp_members(self@, vlan@),
    {
        let ghost v = self@;
        let known = vlan_known(self.vlans(), vlan);
        let n = self.interface_count();
        let mut out: Vec<InterfaceId> = Vec::new();
        let mut k: usize = 0;
        while k < n
            invariant
                v == self@,
                device_wf(v),
                n == v.interfaces.len(),
                k <= n,
                known == has_key(v.vlans, vlan@),
                out@ == members_upto(v, vlan@, k as int),
            decreases n - k,
        {
            let id = InterfaceId((k + 1) as u64);
            let member = known && self.protocol_up(id) && match &self.interface(id).unwrap().1.switchport {
                None => false,
                Some(sp) => match sp.mode {
                    SwitchportMode::Access => sp.access_vlan.get() == vlan.get(),
                    SwitchportMode::Trunk => match &sp.trunk_allowed_vlans {
                        None => true,
                        Some(list) => vlan_in(list, vlan),
                    },
                },
            };
            if member {
                out.push(id);
            }
            k = k + 1;
        }
        out
    }
}

/// Whether `vlan` is in a list of VLANs.
fn vlan_in(list: &Vec<VlanId>, vlan: VlanId) -> (r: bool)
    ensures
        r == crate::inventory::vlan_set(list@).contains(vlan@),
{
    let mut i: usize = 0;
    while i < list.len()
        invariant
            i <= list@.len(),
            forall|j: int| 0 <= j < i ==> (#[trigger] list@[j])@ != vlan@,
        decreases list@.len() - i,
    {
        if list[i].get() == vlan.get() {
            assert(list@[i as int]@ == vlan@);
            return true;
        }
        i = i + 1;
    }
    false
}

/// Whether the VLAN database holds `vlan`.
fn vlan_known(db: &Vec<(VlanId, String)>, vlan: VlanId) -> (r: bool)
    ensures
        r == has_key(vlans_view(db@), vlan@),
{
    let ghost v = vlans_view(db@);
    let mut i: usize = 0;
    while i < db.len()
        invariant
            v == vlans_view(db@),
            i <= db@.len(),
            forall|j: int| 0 <= j < i ==> #[trigger] v[j].0 != vlan@,
        decreases db@.len() - i,
    {
        if db[i].0.get() == vlan.get() {
            assert(v[i as int].0 == vlan@);
            return true;
        }
        i = i + 1;
    }
    false
}

/// The spanning-tree policy of a switchport.
#[derive(Debug, Clone, Copy, PartialEq, Eq)]
pub struct StpPortConfig {
    /// Port priority, a multiple of 16.
    pub priority: u8,
    /// Path cost override, from 1 to 200000000.
    pub cost: Option<u32>,
    /// Whether the port is an edge port.
    pub portfast: bool,
    /// Whether superior BPDUs are refused on the port.
    pub root_guard: bool,
    /// Whether a BPDU heard on the port shuts it down.
    pub bpdu_guard: bool,
}

/// The spanning-tree state of a switch: one instance per VLAN with member ports, in VLAN
/// order; the configured bridge priorities and port policies; and whether rapid mode is
/// selected.
#[derive(Debug, Clone, PartialEq, Eq)]
pub struct SpanningTree {
    instances: Vec<(u32, StpInstance)>,
    priorities: Vec<(u16, u16)>,
    port_policies: Vec<(InterfaceId, StpPortConfig)>,
    rapid: bool,
}

/// The spanning-tree state as a mathematical value.
pub struct TreeView {
    pub instances: Seq<(u32, InstanceView)>,
    pub priorities: Seq<(u16, u16)>,
    pub port_policies: Seq<(InterfaceId, StpPortConfig)>,
    pub rapid: bool,
}

/// The value of an instance, as a function.
pub open spec fn instance_view() -> spec_fn(StpInstance) -> InstanceView {
    |x: StpInstance| x@
}

impl View for SpanningTree {
    type V = TreeView;

    closed spec fn view(&self) -> TreeView {
        TreeView {
            instances: map_entries(self.instances@, instance_view()),
            priorities: self.priorities@,
            port_policies: self.port_policies@,
            rapid: self.rapid,
        }
    }
}

/// Instances in VLAN order, each well formed and for a valid VLAN; settings keyed once.
pub open spec fn tree_wf(t: TreeView) -> bool {
    &&& sorted_keys(t.instances)
    &&& forall|i: int| 0 <= i < t.instances.len() ==> instance_wf((#[trigger] t.instances[i]).1) && 1 <= t.instances[i].0 <= 4094
    &&& keys_unique(t.priorities)
    &&& keys_unique(t.port_policies)
}

/// The value of a new instance.
pub open spec fn empty_instance() -> InstanceView {
    InstanceView { root_id: 0, root_cost: 0, root_port: None, ports: Seq::empty(), since: Seq::empty(), received: Seq::empty() }
}

/// The instance of VLAN number `key`, or a new one.
pub open spec fn prior(t: Seq<(u32, InstanceView)>, key: u32) -> InstanceView {
    if has_key(t, key) {
        value_of(t, key)
    } else {
        empty_instance()
    }
}

/// Whether port `p` forwards in the instance of `vlan`.
pub open spec fn forwarding_spec(t: TreeView, p: InterfaceId, vlan: u16) -> bool {
    has_key(t.instances, vlan as u32) && exists|i: int|
        0 <= i < value_of(t.instances, vlan as u32).ports.len() && (#[trigger] value_of(t.instances, vlan as u32).ports[i]).0 == p
            && value_of(t.instances, vlan as u32).ports[i].2 == StpPortState::Forwarding
}

/// Whether a port policy is valid: a priority in steps of 16 and a cost, when given, from 1
/// to 200000000.
pub open spec fn port_policy_ok(policy: StpPortConfig) -> bool {
    &&& policy.priority % 16 == 0
    &&& match policy.cost {
        Some(c) => 1 <= c <= 200_000_000,
        None => true,
    }
}

impl SpanningTree {
    /// No instances, no settings, classic mode.
    pub fn new() -> (r: SpanningTree)
        ensures
            r@.instances.len() == 0,
            r@.priorities.len() == 0,
            r@.port_policies.len() == 0,
            !r@.rapid,
            tree_wf(r@),
    {
        let r = SpanningTree { instances: Vec::new(), priorities: Vec::new(), port_policies: Vec::new(), rapid: false };
        assert(r@.instances =~= Seq::<(u32, InstanceView)>::empty());
        r
    }

    /// Whether rapid mode is selected.
    pub fn is_rapid(&self) -> (r: bool)
        ensures
            r == self@.rapid,
    {
        self.rapid
    }

    /// The configured bridge priority of `vlan`.
    pub fn priority(&self, vlan: VlanId) -> (r: Option<u16>)
        requires
            tree_wf(self@),
        ensures
            r == if has_key(self@.priorities, vlan@) {
                Some(value_of(self@.priorities, vlan@))
            } else {
                None::<u16>
            },
    {
        let mut i: usize = 0;
        while i < self.priorities.len()
            invariant
                tree_wf(self@),
                i <= self@.priorities.len(),
                forall|j: int| 0 <= j < i ==> #[trigger] self@.priorities[j].0 != vlan@,
            decreases self@.priorities.len() - i,
        {
            if self.priorities[i].0 == vlan.get() {
                proof {
                    lemma_key_index(self@.priorities, i as int);
                }
                return Some(self.priorities[i].1);
            }
            i = i + 1;
        }
        None
    }

    /// The configured policy of port `id`.
    pub fn port_policy(&self, id: InterfaceId) -> (r: Option<StpPortConfig>)
        requires
            tree_wf(self@),
        ensures
            r == if has_key(self@.port_policies, id) {
                Some(value_of(self@.port_policies, id))
            } else {
                None::<StpPortConfig>
            },
    {
        let mut i: usize = 0;
        while i < self.port_policies.len()
            invariant
                tree_wf(self@),
                i <= self@.port_policies.len(),
                forall|j: int| 0 <= j < i ==> #[trigger] self@.port_policies[j].0 != id,
            decreases self@.port_policies.len() - i,
        {
            if self.port_policies[i].0.0 == id.0 {
                proof {
                    lemma_key_index(self@.port_policies, i as int);
                }
                return Some(self.port_policies[i].1);
            }
            i = i + 1;
        }
        None
    }

    /// Whether spanning tree lets port `interface` forward data in `vlan`.
    pub fn stp_forwarding(&self, interface: InterfaceId, vlan: VlanId) -> (r: bool)
        requires
            tree_wf(self@),
        ensures
            r == forwarding_spec(self@, interface, vlan@),
    {
        let ghost t = self@;
        proof {
            assert forall|a: int, b: int| 0 <= a < b < self.instances@.len() implies #[trigger] self.instances@[a].0
                < #[trigger] self.instances@[b].0 by {
                assert(t.instances[a].0 == self.instances@[a].0 && t.instances[b].0 == self.instances@[b].0);
            }
            lemma_map_entries_keys(self.instances@, instance_view(), vlan@ as u32);
        }
        let i = match find_sequence(&self.instances, vlan.get() as u32) {
            None => {
                return false;
            },
            Some(i) => i,
        };
        let ports = &self.instances[i].1.ports;
        assert(value_of(t.instances, vlan@ as u32) == self.instances@[i as int].1@);
        let mut k: usize = 0;
        while k < ports.len()
            invariant
                t == self@,
                has_key(t.instances, vlan@ as u32),
                ports@ == value_of(t.instances, vlan@ as u32).ports,
                k <= ports@.len(),
                forall|j: int| 0 <= j < k ==> !(#[trigger] ports@[j].0 == interface && ports@[j].2 == StpPortState::Forwarding),
            decreases ports@.len() - k,
        {
            if ports[k].0.0 == interface.0 && ports[k].2 == StpPortState::Forwarding {
                assert(ports@[k as int].0 == interface);
                return true;
            }
            k = k + 1;
        }
        false
    }

    /// Remove the instance of VLAN number `key`, or make a new one.
    fn take_instance(&mut self, key: u32) -> (r: StpInstance)
        requires
            tree_wf(old(self)@),
        ensures
            tree_wf(final(self)@),
            r@ == prior(old(self)@.instances, key),
            instance_wf(r@),
            final(self)@ == (TreeView { instances: without(old(self)@.instances, key), ..old(self)@ }),
    {
        let ghost t = self@;
        proof {
            assert forall|a: int, b: int| 0 <= a < b < self.instances@.len() implies #[trigger] self.instances@[a].0
                < #[trigger] self.instances@[b].0 by {
                assert(t.instances[a].0 == self.instances@[a].0 && t.instances[b].0 == self.instances@[b].0);
            }
            lemma_map_entries_keys(self.instances@, instance_view(), key);
        }
        match find_sequence(&self.instances, key) {
            None => {
                proof {
                    assert(without(t.instances, key) == t.instances);
                }
                StpInstance::new()
            },
            Some(i) => {
                let ghost raw = self.instances@;
                proof {
                    lemma_remove_sorted(raw, i as int);
                    crate::keyed::lemma_sorted_unique(raw);
                    lemma_key_index(t.instances, i as int);
                }
                assert(key_index(t.instances, key) == i);
                assert(prior(t.instances, key) == raw[i as int].1@);
                let (_, inst) = self.instances.remove(i);
                proof {
                    assert(inst == raw[i as int].1);
                    assert(raw.remove(i as int) == without(raw, key));
                    assert(self@.instances == without(t.instances, key));
                    assert(t.instances[i as int].1 == inst@);
                    assert forall|j: int| 0 <= j < self@.instances.len() implies instance_wf((#[trigger] self@.instances[j]).1)
                        && 1 <= self@.instances[j].0 <= 4094 by {
                        let j2 = if j < i { j } else { j + 1 };
                        assert(self@.instances[j] == t.instances[j2]);
                    }
                    assert(self@ =~= TreeView { instances: without(t.instances, key), ..t });
                }
                inst
            },
        }
    }

    /// Store `inst` as the instance of VLAN number `key`, which has none.
    fn put_instance(&mut self, key: u32, inst: StpInstance)
        requires
            tree_wf(old(self)@),
            !has_key(old(self)@.instances, key),
            instance_wf(inst@),
            1 <= key <= 4094,
        ensures
            tree_wf(final(self)@),
            final(self)@ == (TreeView { instances: sorted_put(old(self)@.instances, key, inst@), ..old(self)@ }),
    {
        let ghost t = self@;
        let ghost raw = self.instances@;
        proof {
            assert forall|a: int, b: int| 0 <= a < b < raw.len() implies #[trigger] raw[a].0 < #[trigger] raw[b].0 by {
                assert(t.instances[a].0 == raw[a].0 && t.instances[b].0 == raw[b].0);
            }
            lemma_map_entries(raw, instance_view(), key, inst);
        }
        put_entry(&mut self.instances, key, inst);
        proof {
            lemma_sorted_put_read(t.instances, key, inst@);
            let n = self@.instances;
            assert forall|j: int| 0 <= j < n.len() implies instance_wf((#[trigger] n[j]).1) && 1 <= n[j].0 <= 4094 by {
                if n[j].0 != key {
                    crate::keyed::lemma_sorted_unique(n);
                    lemma_key_index(n, j);
                    assert(has_key(t.instances, n[j].0));
                    let m = key_index(t.instances, n[j].0);
                    crate::keyed::lemma_sorted_unique(t.instances);
                    lemma_key_index(t.instances, m);
                    assert(value_of(n, n[j].0) == value_of(t.instances, n[j].0));
                } else {
                    crate::keyed::lemma_sorted_unique(n);
                    lemma_key_index(n, j);
                }
            }
            assert(self@ =~= TreeView { instances: sorted_put(t.instances, key, inst@), ..t });
        }
    }
}

/// The bridge identifier of the device in `vlan`, or 0 without interfaces.
pub open spec fn bridge_or_zero(v: DeviceView, vlan: u16) -> u64 {
    match bridge_spec(v, vlan) {
        Some(b) => b,
        None => 0,
    }
}

/// The expiry of a BPDU heard at `now`: the maximum age later, at most the largest time.
pub open spec fn expiry(now: u64) -> u64 {
    if now + STP_MAX_AGE_US > u64::MAX {
        u64::MAX
    } else {
        (now + STP_MAX_AGE_US) as u64
    }
}

/// Whether the device takes `bpdu` heard on `interface` in `vlan`: the port is a member of
/// that tree and the BPDU is not the device's own.
pub open spec fn takes_bpdu(v: DeviceView, interface: InterfaceId, vlan: u16, bpdu: ConfigurationBpdu) -> bool {
    stp_members(v, vlan).contains(interface) && bridge_spec(v, vlan) != Some(bpdu.bridge_id)
}

/// The instance of `vlan` after hearing `bpdu` on `interface` at `now` and recomputing.
pub open spec fn heard_instance(
    v: DeviceView,
    t: Seq<(u32, InstanceView)>,
    policies: Seq<(InterfaceId, StpPortConfig)>,
    interface: InterfaceId,
    vlan: u16,
    bpdu: ConfigurationBpdu,
    now: u64,
) -> InstanceView {
    let before = prior(t, vlan as u32);
    recompute_spec(
        InstanceView {
            received: put(
                before.received,
                interface,
                StpReceived {
                    bpdu,
                    expires_at: expiry(now),
                    link_cost: link_cost_of(policies, interface),
                    guarded: guarded_port(policies, interface),
                },
            ),
            ..before
        },
        bridge_or_zero(v, vlan),
        stp_members(v, vlan),
        policies,
        now,
    )
}

/// Whether an entry survives a recomputation from `before` to `after`: its port did not
/// start blocking.
pub open spec fn survives(before: InstanceView, after: InstanceView) -> spec_fn(MacEntry) -> bool {
    |e: MacEntry| !newly_blocked(before.ports, after.ports, e.interface)
}

/// A tree with member ports belongs to a device with interfaces.
proof fn lemma_members_need_interfaces(v: DeviceView, vlan: u16)
    requires
        v.interfaces.len() <= 0xffff,
        stp_members(v, vlan).len() > 0,
    ensures
        v.interfaces.len() > 0,
        bridge_spec(v, vlan) is Some,
{
    lemma_members_upto(v, vlan, v.interfaces.len() as int);
    assert(1 <= stp_members(v, vlan)[0].0 <= v.interfaces.len());
}

/// Store `rx` as the BPDU heard on `id`, replacing the one it had.
fn put_received(received: &mut Vec<(InterfaceId, StpReceived)>, id: InterfaceId, rx: StpReceived)
    requires
        keys_unique(old(received)@),
    ensures
        final(received)@ == put(old(received)@, id, rx),
        keys_unique(final(received)@),
{
    proof {
        lemma_put_unique(received@, id, rx);
    }
    match heard_on(received, id) {
        Some(i) => {
            received.set(i, (id, rx));
        },
        None => {
            received.push((id, rx));
        },
    }
}

impl Device {
    /// Take a configuration BPDU heard on `interface` in `vlan` at `now`: a BPDU on a port
    /// outside that tree, or the device's own, is ignored; otherwise it replaces what the
    /// port heard before, the tree is recomputed, and addresses learned on ports that start
    /// blocking are forgotten.
    pub fn receive_stp(
        &self,
        stp: &mut SpanningTree,
        macs: &mut MacTable,
        interface: InterfaceId,
        vlan: VlanId,
        bpdu: ConfigurationBpdu,
        now: u64,
    )
        requires
            device_wf(self@),
            tree_wf(old(stp)@),
            mac_table_wf(old(macs)@),
        ensures
            tree_wf(final(stp)@),
            mac_table_wf(final(macs)@),
            if takes_bpdu(self@, interface, vlan@, bpdu) {
                &&& final(stp)@ == (TreeView {
                    instances: sorted_put(
                        old(stp)@.instances,
                        vlan@ as u32,
                        heard_instance(self@, old(stp)@.instances, old(stp)@.port_policies, interface, vlan@, bpdu, now),
                    ),
                    ..old(stp)@
                })
                &&& final(macs)@ == crate::keyed::kept(
                    old(macs)@,
                    survives(
                        prior(old(stp)@.instances, vlan@ as u32),
                        heard_instance(self@, old(stp)@.instances, old(stp)@.port_policies, interface, vlan@, bpdu, now),
                    ),
                )
            } else {
                final(stp)@ == old(stp)@ && final(macs)@ == old(macs)@
            },
    {
        let members = self.stp_member_list(vlan);
        if !contains_port(&members, interface) {
            return;
        }
        proof {
            lemma_members_need_interfaces(self@, vlan@);
            lemma_members_distinct(self@, vlan@);
        }
        let bridge = match self.bridge_id(vlan) {
            None => {
                return;
            },
            Some(b) => b,
        };
        if bridge == bpdu.bridge_id {
            return;
        }
        let key = vlan.get() as u32;
        let ghost t = stp@;
        let ghost old_macs = macs@;
        let mut inst = stp.take_instance(key);
        let ghost before = inst@;
        let (link_cost, guarded) = reception(&stp.port_policies, interface);
        let rx = StpReceived { bpdu, expires_at: now.saturating_add(STP_MAX_AGE_US), link_cost, guarded };
        put_received(&mut inst.received, interface, rx);
        let ghost heard = inst@;
        assert(heard == (InstanceView { received: put(before.received, interface, rx), ..before }));
        let blocked = inst.recompute(bridge, &members, &stp.port_policies, now);
        let ghost after = inst@;
        proof {
            crate::keyed::lemma_without_read(t.instances, key);
        }
        stp.put_instance(key, inst);
        macs.forget_interfaces(&blocked);
        proof {
            let t2 = stp@.instances;
            let want = sorted_put(t.instances, key, after);
            lemma_sorted_put_read(without(t.instances, key), key, after);
            lemma_sorted_put_read(t.instances, key, after);
            crate::keyed::lemma_remove_sorted_without(t.instances, key);
            assert forall|k: u32| has_key(t2, k) == has_key(want, k) by {
                if k != key {
                    assert(has_key(t2, k) == has_key(without(t.instances, key), k));
                    assert(has_key(without(t.instances, key), k) == has_key(t.instances, k));
                }
            }
            assert forall|k: u32| has_key(t2, k) implies value_of(t2, k) == value_of(want, k) by {
                if k != key {
                    assert(has_key(without(t.instances, key), k) == has_key(t.instances, k));
                    assert(value_of(t2, k) == value_of(without(t.instances, key), k));
                    assert(value_of(without(t.instances, key), k) == value_of(t.instances, k));
                }
            }
            crate::keyed::lemma_sorted_ext(t2, want);
            assert(stp@ =~= TreeView { instances: want, ..t });
            assert(off_interfaces(blocked@) =~= survives(before, after));
        }
    }
}

/// The instance of VLAN number `key` after recomputing its tree at `now`.
pub open spec fn refreshed_instance(
    v: DeviceView,
    t: Seq<(u32, InstanceView)>,
    policies: Seq<(InterfaceId, StpPortConfig)>,
    key: u32,
    now: u64,
) -> InstanceView {
    recompute_spec(prior(t, key), bridge_or_zero(v, key as u16), stp_members(v, key as u16), policies, now)
}

/// Whether VLAN number `key` has a tree: a valid VLAN with member ports.
pub open spec fn has_tree(v: DeviceView, key: u32) -> bool {
    1 <= key <= 4094 && stp_members(v, key as u16).len() > 0
}

/// Whether recomputing every tree at `now` makes port `p` start blocking in some tree.
pub open spec fn refresh_blocks(
    v: DeviceView,
    t: Seq<(u32, InstanceView)>,
    policies: Seq<(InterfaceId, StpPortConfig)>,
    now: u64,
    p: InterfaceId,
) -> bool {
    exists|key: u32| #[trigger] has_tree(v, key) && newly_blocked(prior(t, key).ports, refreshed_instance(v, t, policies, key, now).ports, p)
}

/// Whether an entry survives recomputing every tree: its port starts blocking in none.
pub open spec fn survives_refresh(
    v: DeviceView,
    t: Seq<(u32, InstanceView)>,
    policies: Seq<(InterfaceId, StpPortConfig)>,
    now: u64,
) -> spec_fn(MacEntry) -> bool {
    |e: MacEntry| !refresh_blocks(v, t, policies, now, e.interface)
}

/// Whether VLAN number `key` is among the first `i` VLANs of the database and has a tree.
pub open spec fn refreshed_by(v: DeviceView, key: u32, i: int) -> bool {
    &&& exists|j: int| 0 <= j < i && (#[trigger] v.vlans[j]).0 == key
    &&& has_tree(v, key)
}

/// Append `more` to `list`.
fn append_ports(list: &mut Vec<InterfaceId>, more: &Vec<InterfaceId>)
    ensures
        forall|p: InterfaceId| #[trigger] final(list)@.contains(p) <==> old(list)@.contains(p) || more@.contains(p),
{
    let ghost start = list@;
    let mut k: usize = 0;
    while k < more.len()
        invariant
            k <= more@.len(),
            list@ == start + more@.take(k as int),
        decreases more@.len() - k,
    {
        list.push(more[k]);
        proof {
            assert(more@.take(k + 1) =~= more@.take(k as int).push(more@[k as int]));
            assert(list@ =~= start + more@.take(k + 1));
        }
        k = k + 1;
    }
    proof {
        assert(more@.take(more@.len() as int) =~= more@);
        assert forall|p: InterfaceId| #[trigger] list@.contains(p) <==> start.contains(p) || more@.contains(p) by {
            if list@.contains(p) {
                let i = choose|i: int| 0 <= i < list@.len() && list@[i] == p;
                if i < start.len() {
                    assert(start[i] == p);
                } else {
                    assert(more@[i - start.len()] == p);
                }
            }
            if start.contains(p) {
                let i = choose|i: int| 0 <= i < start.len() && start[i] == p;
                assert(list@[i] == p);
            }
            if more@.contains(p) {
                let i = choose|i: int| 0 <= i < more@.len() && more@[i] == p;
                assert(list@[start.len() + i] == p);
            }
        }
    }
}

impl Device {
    /// Recompute the tree of every VLAN with member ports at `now`: trees of VLANs without
    /// members are dropped, BPDUs that no longer count are forgotten, and addresses learned
    /// on ports that start blocking are forgotten. Nothing happens on a device that does not
    /// switch.
    pub fn refresh_spanning_tree(&self, stp: &mut SpanningTree, macs: &mut MacTable, now: u64)
        requires
            device_wf(self@),
            tree_wf(old(stp)@),
            mac_table_wf(old(macs)@),
        ensures
            tree_wf(final(stp)@),
            mac_table_wf(final(macs)@),
            if crate::inventory::switching(self@.device_type) {
                &&& forall|key: u32| #[trigger] has_key(final(stp)@.instances, key) == has_tree(self@, key)
                &&& forall|key: u32|
                    has_tree(self@, key) ==> #[trigger] value_of(final(stp)@.instances, key) == refreshed_instance(
                        self@,
                        old(stp)@.instances,
                        old(stp)@.port_policies,
                        key,
                        now,
                    )
                &&& final(stp)@.priorities == old(stp)@.priorities
                &&& final(stp)@.port_policies == old(stp)@.port_policies
                &&& final(stp)@.rapid == old(stp)@.rapid
                &&& final(macs)@ == crate::keyed::kept(old(macs)@, survives_refresh(self@, old(stp)@.instances, old(stp)@.port_policies, now))
            } else {
                final(stp)@ == old(stp)@ && final(macs)@ == old(macs)@
            },
    {
        if !self.supports_switching() {
            return;
        }
        let ghost v = self@;
        let ghost t = stp@;
        let db = self.vlans();
        let mut blocked: Vec<InterfaceId> = Vec::new();
        let mut i: usize = 0;
        while i < db.len()
            invariant
                v == self@,
                device_wf(v),
                vlans_view(db@) == v.vlans,
                i <= db@.len(),
                tree_wf(stp@),
                stp@.priorities == t.priorities,
                stp@.port_policies == t.port_policies,
                stp@.rapid == t.rapid,
                forall|key: u32| #[trigger] has_key(stp@.instances, key) == (has_key(t.instances, key) || refreshed_by(v, key, i as int)),
                forall|key: u32| #[trigger] has_key(stp@.instances, key) ==> value_of(stp@.instances, key) == if refreshed_by(v, key, i as int) {
                    refreshed_instance(v, t.instances, t.port_policies, key, now)
                } else {
                    value_of(t.instances, key)
                },
                forall|p: InterfaceId| #[trigger] blocked@.contains(p) <==> exists|key: u32| #[trigger] refreshed_by(v, key, i as int)
                    && newly_blocked(prior(t.instances, key).ports, refreshed_instance(v, t.instances, t.port_policies, key, now).ports, p),
            decreases db@.len() - i,
        {
            let vlan = db[i].0;
            let key = vlan.get() as u32;
            assert(v.vlans[i as int].0 == key);
            let members = self.stp_member_list(vlan);
            if members.len() > 0 {
                proof {
                    lemma_members_need_interfaces(v, vlan@);
                    lemma_members_distinct(v, vlan@);
                    assert(has_tree(v, key));
                    assert forall|j: int| 0 <= j < i implies (#[trigger] v.vlans[j]).0 != key by {
                        assert(v.vlans[j].0 != v.vlans[i as int].0);
                    }
                    assert(!refreshed_by(v, key, i as int));
                }
                let bridge = match self.bridge_id(vlan) {
                    None => 0,
                    Some(b) => b,
                };
                let ghost cur = stp@;
                let mut inst = stp.take_instance(key);
                assert(prior(cur.instances, key) == prior(t.instances, key));
                let nb = inst.recompute(bridge, &members, &stp.port_policies, now);
                let ghost after = inst@;
                assert(after == refreshed_instance(v, t.instances, t.port_policies, key, now));
                proof {
                    crate::keyed::lemma_without_read(cur.instances, key);
                }
                stp.put_instance(key, inst);
                proof {
                    lemma_sorted_put_read(without(cur.instances, key), key, after);
                }
                let ghost old_blocked = blocked@;
                append_ports(&mut blocked, &nb);
                proof {
                    assert forall|k2: u32| refreshed_by(v, k2, i + 1) == (refreshed_by(v, k2, i as int) || k2 == key) by {
                        if refreshed_by(v, k2, i + 1) && k2 != key {
                            let j = choose|j: int| 0 <= j < i + 1 && (#[trigger] v.vlans[j]).0 == k2;
                            assert(j != i);
                        }
                        if k2 == key {
                            assert(v.vlans[i as int].0 == k2);
                        }
                        if refreshed_by(v, k2, i as int) {
                            let j = choose|j: int| 0 <= j < i && (#[trigger] v.vlans[j]).0 == k2;
                            assert(0 <= j < i + 1);
                        }
                    }
                    assert forall|k2: u32| #[trigger] has_key(stp@.instances, k2) == (has_key(t.instances, k2) || refreshed_by(v, k2, i + 1)) by {
                        if k2 != key {
                            assert(has_key(stp@.instances, k2) == has_key(cur.instances, k2));
                        }
                    }
                    assert forall|k2: u32| #[trigger] has_key(stp@.instances, k2) implies value_of(stp@.instances, k2) == if refreshed_by(v, k2, i + 1) {
                        refreshed_instance(v, t.instances, t.port_policies, k2, now)
                    } else {
                        value_of(t.instances, k2)
                    } by {
                        if k2 != key {
                            assert(has_key(cur.instances, k2));
                            assert(value_of(stp@.instances, k2) == value_of(cur.instances, k2));
                        }
                    }
                    assert forall|p: InterfaceId| #[trigger] blocked@.contains(p) <==> exists|k2: u32| #[trigger] refreshed_by(v, k2, i + 1)
                        && newly_blocked(prior(t.instances, k2).ports, refreshed_instance(v, t.instances, t.port_policies, k2, now).ports, p) by {
                        if blocked@.contains(p) {
                            if old_blocked.contains(p) {
                                let k2 = choose|k2: u32| #[trigger] refreshed_by(v, k2, i as int)
                                    && newly_blocked(prior(t.instances, k2).ports, refreshed_instance(v, t.instances, t.port_policies, k2, now).ports, p);
                                assert(refreshed_by(v, k2, i + 1));
                            } else {
                                assert(nb@.contains(p));
                                assert(refreshed_by(v, key, i + 1));
                            }
                        }
                        if exists|k2: u32| #[trigger] refreshed_by(v, k2, i + 1)
                            && newly_blocked(prior(t.instances, k2).ports, refreshed_instance(v, t.instances, t.port_policies, k2, now).ports, p) {
                            let k2 = choose|k2: u32| #[trigger] refreshed_by(v, k2, i + 1)
                                && newly_blocked(prior(t.instances, k2).ports, refreshed_instance(v, t.instances, t.port_policies, k2, now).ports, p);
                            if k2 == key {
                                assert(nb@.contains(p));
                            } else {
                                assert(refreshed_by(v, k2, i as int));
                                assert(old_blocked.contains(p));
                            }
                        }
                    }
                }
            } else {
                proof {
                    assert(!has_tree(v, key));
                    assert forall|k2: u32| refreshed_by(v, k2, i + 1) == refreshed_by(v, k2, i as int) by {
                        if refreshed_by(v, k2, i + 1) {
                            let j = choose|j: int| 0 <= j < i + 1 && (#[trigger] v.vlans[j]).0 == k2;
                            if j == i {
                                assert(k2 == key);
                            }
                        }
                        if refreshed_by(v, k2, i as int) {
                            let j = choose|j: int| 0 <= j < i && (#[trigger] v.vlans[j]).0 == k2;
                            assert(0 <= j < i + 1);
                        }
                    }
                    assert forall|p: InterfaceId| #[trigger] blocked@.contains(p) <==> exists|k2: u32| #[trigger] refreshed_by(v, k2, i + 1)
                        && newly_blocked(prior(t.instances, k2).ports, refreshed_instance(v, t.instances, t.port_policies, k2, now).ports, p) by {
                        if blocked@.contains(p) {
                            let k2 = choose|k2: u32| #[trigger] refreshed_by(v, k2, i as int)
                                && newly_blocked(prior(t.instances, k2).ports, refreshed_instance(v, t.instances, t.port_policies, k2, now).ports, p);
                            assert(refreshed_by(v, k2, i + 1));
                        }
                        if exists|k2: u32| #[trigger] refreshed_by(v, k2, i + 1)
                            && newly_blocked(prior(t.instances, k2).ports, refreshed_instance(v, t.instances, t.port_policies, k2, now).ports, p) {
                            let k2 = choose|k2: u32| #[trigger] refreshed_by(v, k2, i + 1)
                                && newly_blocked(prior(t.instances, k2).ports, refreshed_instance(v, t.instances, t.port_policies, k2, now).ports, p);
                            assert(refreshed_by(v, k2, i as int));
                        }
                    }
                }
            }
            i = i + 1;
        }
        let ghost looped = stp@;
        self.drop_bare_trees(stp);
        macs.forget_interfaces(&blocked);
        proof {
            assert forall|key: u32| #[trigger] has_key(stp@.instances, key) == has_tree(v, key) by {
                if has_tree(v, key) {
                    lemma_tree_vlan_known(v, key);
                    assert(refreshed_by(v, key, db@.len() as int));
                    assert(has_key(looped.instances, key));
                }
            }
            assert forall|key: u32| has_tree(v, key) implies #[trigger] value_of(stp@.instances, key) == refreshed_instance(v, t.instances, t.port_policies, key, now) by {
                lemma_tree_vlan_known(v, key);
                assert(refreshed_by(v, key, db@.len() as int));
                assert(has_key(looped.instances, key));
                assert(has_key(stp@.instances, key));
                assert(value_of(stp@.instances, key) == value_of(looped.instances, key));
            }
            assert forall|key: u32| refreshed_by(v, key, db@.len() as int) == has_tree(v, key) by {
                if has_tree(v, key) {
                    lemma_tree_vlan_known(v, key);
                }
            }
            assert forall|p: InterfaceId| #[trigger] blocked@.contains(p) == refresh_blocks(v, t.instances, t.port_policies, now, p) by {
                if refresh_blocks(v, t.instances, t.port_policies, now, p) {
                    let k2 = choose|k2: u32| #[trigger] has_tree(v, k2) && newly_blocked(prior(t.instances, k2).ports, refreshed_instance(v, t.instances, t.port_policies, k2, now).ports, p);
                    assert(refreshed_by(v, k2, db@.len() as int));
                }
            }
            assert(off_interfaces(blocked@) =~= survives_refresh(v, t.instances, t.port_policies, now));
        }
    }

    /// Drop the trees of VLANs without member ports.
    fn drop_bare_trees(&self, stp: &mut SpanningTree)
        requires
            device_wf(self@),
            tree_wf(old(stp)@),
        ensures
            tree_wf(final(stp)@),
            final(stp)@.priorities == old(stp)@.priorities,
            final(stp)@.port_policies == old(stp)@.port_policies,
            final(stp)@.rapid == old(stp)@.rapid,
            forall|key: u32| #[trigger] has_key(final(stp)@.instances, key) == (has_key(old(stp)@.instances, key) && has_tree(self@, key)),
            forall|key: u32| #[trigger] has_key(final(stp)@.instances, key) ==> value_of(final(stp)@.instances, key) == value_of(old(stp)@.instances, key),
    {
        let ghost t = stp@;
        let mut j: usize = 0;
        while j < stp.instances.len()
            invariant
                device_wf(self@),
                tree_wf(stp@),
                stp@.priorities == t.priorities,
                stp@.port_policies == t.port_policies,
                stp@.rapid == t.rapid,
                j <= stp@.instances.len(),
                stp@.instances.len() == stp.instances@.len(),
                forall|key: u32| #[trigger] has_key(stp@.instances, key) ==> has_key(t.instances, key) && value_of(stp@.instances, key) == value_of(t.instances, key),
                forall|key: u32| has_key(t.instances, key) && #[trigger] has_tree(self@, key) ==> has_key(stp@.instances, key),
                forall|k: int| 0 <= k < j ==> has_tree(self@, (#[trigger] stp@.instances[k]).0),
            decreases stp@.instances.len() - j,
        {
            let key = stp.instances[j].0;
            assert(stp@.instances[j as int].0 == key);
            assert(1 <= key <= 4094);
            let vlan = match VlanId::new(key as u16) {
                Ok(x) => x,
                Err(_) => {
                    return;
                },
            };
            let members = self.stp_member_list(vlan);
            if members.len() > 0 {
                j = j + 1;
            } else {
                let ghost cur = stp@;
                proof {
                    crate::keyed::lemma_sorted_unique(cur.instances);
                    lemma_key_index(cur.instances, j as int);
                    crate::keyed::lemma_without_read(cur.instances, key);
                }
                let _ = stp.take_instance(key);
                proof {
                    assert(stp@.instances == cur.instances.remove(j as int));
                    assert forall|k: int| 0 <= k < j implies has_tree(self@, (#[trigger] stp@.instances[k]).0) by {
                        assert(stp@.instances[k] == cur.instances[k]);
                    }
                    assert(stp@.instances == without(cur.instances, key));
                    assert(!has_tree(self@, key));
                    assert forall|k2: u32| #[trigger] has_key(stp@.instances, k2) implies has_key(t.instances, k2) && value_of(stp@.instances, k2)
                        == value_of(t.instances, k2) by {
                        assert(k2 != key);
                        assert(has_key(cur.instances, k2));
                        assert(value_of(stp@.instances, k2) == value_of(cur.instances, k2));
                    }
                    assert forall|k2: u32| has_key(t.instances, k2) && #[trigger] has_tree(self@, k2) implies has_key(stp@.instances, k2) by {
                        assert(k2 != key);
                        assert(has_key(cur.instances, k2));
                    }
                }
            }
        }
        proof {
            assert forall|key: u32| #[trigger] has_key(stp@.instances, key) implies has_tree(self@, key) by {
                let k = choose|k: int| 0 <= k < stp@.instances.len() && #[trigger] stp@.instances[k].0 == key;
            }
        }
    }
}

/// A VLAN with a tree is in the database.
proof fn lemma_tree_vlan_known(v: DeviceView, key: u32)
    requires
        v.interfaces.len() <= 0xffff,
        has_tree(v, key),
    ensures
        exists|j: int| 0 <= j < v.vlans.len() && (#[trigger] v.vlans[j]).0 == key,
{
    lemma_members_upto(v, key as u16, v.interfaces.len() as int);
    let m = stp_members(v, key as u16)[0];
    assert(stp_members(v, key as u16).contains(m));
    assert(stp_member(v, key as u16, m.0 - 1)) by {
        assert(InterfaceId(((m.0 - 1) + 1) as u64) == m);
    }
    let j = key_index(v.vlans, key as u16);
    assert(v.vlans[j].0 == key);
}

/// The BPDUs an instance sends on the first of its ports: one on each designated port,
/// carrying the root, the cost to it and this bridge.
pub open spec fn port_bpdus(
    ports: Seq<(InterfaceId, StpPortRole, StpPortState)>,
    vlan: u16,
    inst: InstanceView,
    bridge: u64,
) -> Seq<(InterfaceId, u16, ConfigurationBpdu)>
    decreases ports.len(),
{
    if ports.len() == 0 {
        Seq::empty()
    } else {
        let rest = port_bpdus(ports.drop_last(), vlan, inst, bridge);
        let p = ports.last();
        if p.1 == StpPortRole::Designated {
            rest.push(
                (
                    p.0,
                    vlan,
                    ConfigurationBpdu {
                        root_id: inst.root_id,
                        root_cost: inst.root_cost,
                        bridge_id: bridge,
                        port_id: port_number(p.0),
                    },
                ),
            )
        } else {
            rest
        }
    }
}

/// The BPDUs every instance sends, in VLAN order and then port order.
pub open spec fn tree_bpdus(v: DeviceView, s: Seq<(u32, InstanceView)>) -> Seq<(InterfaceId, u16, ConfigurationBpdu)>
    decreases s.len(),
{
    if s.len() == 0 {
        Seq::empty()
    } else {
        let last = s.last();
        tree_bpdus(v, s.drop_last()) + port_bpdus(last.1.ports, last.0 as u16, last.1, bridge_or_zero(v, last.0 as u16))
    }
}

/// BPDUs to send, with VLAN numbers.
pub open spec fn bpdus_view(r: Seq<(InterfaceId, VlanId, ConfigurationBpdu)>) -> Seq<(InterfaceId, u16, ConfigurationBpdu)> {
    r.map_values(|e: (InterfaceId, VlanId, ConfigurationBpdu)| (e.0, e.1@, e.2))
}

impl Device {
    /// Recompute every tree at `now`, then produce the configuration BPDUs of each
    /// designated port, in VLAN order and then port order.
    pub fn stp_bpdus(&self, stp: &mut SpanningTree, macs: &mut MacTable, now: u64) -> (r: Vec<(InterfaceId, VlanId, ConfigurationBpdu)>)
        requires
            device_wf(self@),
            tree_wf(old(stp)@),
            mac_table_wf(old(macs)@),
        ensures
            tree_wf(final(stp)@),
            mac_table_wf(final(macs)@),
            if crate::inventory::switching(self@.device_type) {
                &&& forall|key: u32| #[trigger] has_key(final(stp)@.instances, key) == has_tree(self@, key)
                &&& forall|key: u32|
                    has_tree(self@, key) ==> #[trigger] value_of(final(stp)@.instances, key) == refreshed_instance(
                        self@,
                        old(stp)@.instances,
                        old(stp)@.port_policies,
                        key,
                        now,
                    )
                &&& final(stp)@.priorities == old(stp)@.priorities
                &&& final(stp)@.port_policies == old(stp)@.port_policies
                &&& final(stp)@.rapid == old(stp)@.rapid
                &&& final(macs)@ == crate::keyed::kept(old(macs)@, survives_refresh(self@, old(stp)@.instances, old(stp)@.port_policies, now))
            } else {
                final(stp)@ == old(stp)@ && final(macs)@ == old(macs)@
            },
            bpdus_view(r@) == tree_bpdus(self@, final(stp)@.instances),
    {
        self.refresh_spanning_tree(stp, macs, now);
        let ghost t = stp@;
        let mut out: Vec<(InterfaceId, VlanId, ConfigurationBpdu)> = Vec::new();
        let mut i: usize = 0;
        while i < stp.instances.len()
            invariant
                device_wf(self@),
                t == stp@,
                tree_wf(t),
                t.instances.len() == stp.instances@.len(),
                i <= t.instances.len(),
                bpdus_view(out@) == tree_bpdus(self@, t.instances.take(i as int)),
            decreases t.instances.len() - i,
        {
            let key = stp.instances[i].0;
            let inst = &stp.instances[i].1;
            assert(t.instances[i as int] == (key, inst@));
            assert(1 <= key <= 4094);
            let vlan = match VlanId::new(key as u16) {
                Ok(x) => x,
                Err(_) => {
                    return out;
                },
            };
            let bridge = match self.bridge_id(vlan) {
                None => 0,
                Some(b) => b,
            };
            let ghost base = out@;
            let mut k: usize = 0;
            while k < inst.ports.len()
                invariant
                    device_wf(self@),
                    vlan@ == key as u16,
                    bridge == bridge_or_zero(self@, key as u16),
                    k <= inst.ports@.len(),
                    bpdus_view(out@) == bpdus_view(base) + port_bpdus(inst.ports@.take(k as int), key as u16, inst@, bridge),
                decreases inst.ports@.len() - k,
            {
                let (p, role, _) = inst.ports[k];
                proof {
                    assert(inst.ports@.take(k + 1).drop_last() =~= inst.ports@.take(k as int));
                    assert(inst.ports@.take(k + 1).last() == inst.ports@[k as int]);
                }
                let ghost prev = out@;
                if role == StpPortRole::Designated {
                    out.push(
                        (
                            p,
                            vlan,
                            ConfigurationBpdu {
                                root_id: inst.root_id,
                                root_cost: inst.root_cost,
                                bridge_id: bridge,
                                port_id: port_number_exec(p),
                            },
                        ),
                    );
                    proof {
                        assert(bpdus_view(out@) =~= bpdus_view(prev).push(
                            (p, key as u16, ConfigurationBpdu { root_id: inst.root_id, root_cost: inst.root_cost, bridge_id: bridge, port_id: port_number(p) }),
                        ));
                        assert(bpdus_view(out@) =~= bpdus_view(base) + port_bpdus(inst.ports@.take(k + 1), key as u16, inst@, bridge));
                    }
                }
                k = k + 1;
            }
            proof {
                assert(inst.ports@.take(inst.ports@.len() as int) =~= inst.ports@);
                assert(t.instances.take(i + 1).drop_last() =~= t.instances.take(i as int));
                assert(t.instances.take(i + 1).last() == t.instances[i as int]);
                assert(bpdus_view(out@) =~= tree_bpdus(self@, t.instances.take(i + 1)));
            }
            i = i + 1;
        }
        proof {
            assert(t.instances.take(t.instances.len() as int) =~= t.instances);
        }
        out
    }
}

/// The member ports without port `id`, in order.
pub open spec fn ports_without(s: Seq<(InterfaceId, StpPortRole, StpPortState)>, id: InterfaceId) -> Seq<(InterfaceId, StpPortRole, StpPortState)>
    decreases s.len(),
{
    if s.len() == 0 {
        s
    } else {
        let rest = ports_without(s.drop_last(), id);
        if s.last().0 == id {
            rest
        } else {
            rest.push(s.last())
        }
    }
}

/// An instance after forgetting what port `id` heard and, when `as_member`, the port itself.
pub open spec fn instance_without(v: InstanceView, id: InterfaceId, as_member: bool) -> InstanceView {
    InstanceView {
        received: without(v.received, id),
        ports: if as_member {
            ports_without(v.ports, id)
        } else {
            v.ports
        },
        since: if as_member {
            since_without(v.ports, v.since, id)
        } else {
            v.since
        },
        ..v
    }
}

/// The start times of the ports other than `id`, in order; `since` runs beside `ports`.
pub open spec fn since_without(
    ports: Seq<(InterfaceId, StpPortRole, StpPortState)>,
    since: Seq<u64>,
    id: InterfaceId,
) -> Seq<u64>
    decreases ports.len(),
{
    if ports.len() == 0 || since.len() == 0 {
        Seq::empty()
    } else {
        let rest = since_without(ports.drop_last(), since.drop_last(), id);
        if ports.last().0 == id {
            rest
        } else {
            rest.push(since.last())
        }
    }
}

/// Dropping a port from the ports and from their start times keeps them side by side.
proof fn lemma_since_without_len(ports: Seq<(InterfaceId, StpPortRole, StpPortState)>, since: Seq<u64>, id: InterfaceId)
    requires
        ports.len() == since.len(),
    ensures
        since_without(ports, since, id).len() == ports_without(ports, id).len(),
    decreases ports.len(),
{
    if ports.len() > 0 {
        lemma_since_without_len(ports.drop_last(), since.drop_last(), id);
    }
}

/// Dropping a port keeps the others once each and in order.
proof fn lemma_ports_without(s: Seq<(InterfaceId, StpPortRole, StpPortState)>, id: InterfaceId)
    ensures
        forall|i: int| 0 <= i < ports_without(s, id).len() ==> s.contains(#[trigger] ports_without(s, id)[i]),
        ports_distinct(s) ==> ports_distinct(ports_without(s, id)),
    decreases s.len(),
{
    if s.len() > 0 {
        let init = s.drop_last();
        lemma_ports_without(init, id);
        let rest = ports_without(init, id);
        let out = ports_without(s, id);
        assert forall|i: int| 0 <= i < out.len() implies s.contains(#[trigger] out[i]) by {
            if i < rest.len() {
                assert(out[i] == rest[i]);
                assert(init.contains(rest[i]));
                let m = choose|m: int| 0 <= m < init.len() && init[m] == rest[i];
                assert(s[m] == init[m]);
            } else {
                assert(out[i] == s[s.len() - 1]);
            }
        }
        if ports_distinct(s) {
            assert(ports_distinct(init)) by {
                assert forall|a: int, b: int| 0 <= a < b < init.len() implies #[trigger] init[a].0 != #[trigger] init[b].0 by {
                    assert(init[a] == s[a] && init[b] == s[b]);
                }
            }
            assert forall|a: int, b: int| 0 <= a < b < out.len() implies #[trigger] out[a].0 != #[trigger] out[b].0 by {
                if b < rest.len() {
                    assert(out[a] == rest[a] && out[b] == rest[b]);
                } else {
                    assert(out[a] == rest[a]);
                    assert(init.contains(rest[a]));
                    let m = choose|m: int| 0 <= m < init.len() && init[m] == rest[a];
                    assert(s[m] == init[m]);
                    assert(out[b] == s[s.len() - 1]);
                }
            }
        }
    }
}

impl StpInstance {
    /// Forget what port `id` heard and, when `as_member`, the port itself.
    fn forget(&mut self, id: InterfaceId, as_member: bool)
        requires
            instance_wf(old(self)@),
        ensures
            instance_wf(final(self)@),
            final(self)@ == instance_without(old(self)@, id, as_member),
    {
        let ghost before = self@;
        proof {
            crate::keyed::lemma_without_unique(before.received, id);
            lemma_ports_without(before.ports, id);
            lemma_since_without_len(before.ports, before.since, id);
        }
        match heard_on(&self.received, id) {
            Some(i) => {
                let _ = self.received.remove(i);
            },
            None => {},
        }
        if as_member {
            let mut kept_ports: Vec<(InterfaceId, StpPortRole, StpPortState)> = Vec::new();
            let mut kept_since: Vec<u64> = Vec::new();
            let mut k: usize = 0;
            while k < self.ports.len()
                invariant
                    self.ports@ == before.ports,
                    self.since@ == before.since,
                    before.since.len() == before.ports.len(),
                    k <= before.ports.len(),
                    kept_ports@ == ports_without(before.ports.take(k as int), id),
                    kept_since@ == since_without(before.ports.take(k as int), before.since.take(k as int), id),
                decreases before.ports.len() - k,
            {
                let e = self.ports[k];
                let t = self.since[k];
                proof {
                    assert(before.ports.take(k + 1).drop_last() =~= before.ports.take(k as int));
                    assert(before.ports.take(k + 1).last() == e);
                    assert(before.since.take(k + 1).drop_last() =~= before.since.take(k as int));
                    assert(before.since.take(k + 1).last() == t);
                }
                if e.0.0 != id.0 {
                    kept_ports.push(e);
                    kept_since.push(t);
                }
                k = k + 1;
            }
            proof {
                assert(before.ports.take(before.ports.len() as int) =~= before.ports);
                assert(before.since.take(before.since.len() as int) =~= before.since);
            }
            self.ports = kept_ports;
            self.since = kept_since;
        }
        proof {
            assert(self@ =~= instance_without(before, id, as_member));
        }
    }
}

impl SpanningTree {
    /// Forget, in every VLAN, what port `id` heard and, when `as_member`, the port itself;
    /// for a port that lost carrier or was shut down.
    pub fn forget_port(&mut self, id: InterfaceId, as_member: bool)
        requires
            tree_wf(old(self)@),
        ensures
            tree_wf(final(self)@),
            final(self)@ == (TreeView {
                instances: map_entries(old(self)@.instances, |v: InstanceView| instance_without(v, id, as_member)),
                ..old(self)@
            }),
    {
        let ghost t = self@;
        let ghost f = |v: InstanceView| instance_without(v, id, as_member);
        let mut done: Vec<(u32, StpInstance)> = Vec::new();
        let mut rest: Vec<(u32, StpInstance)> = Vec::new();
        std::mem::swap(&mut rest, &mut self.instances);
        let ghost all = rest@;
        let n0 = rest.len();
        assert(map_entries(all, instance_view()) == t.instances);
        let mut k: usize = 0;
        while rest.len() > 0
            invariant
                all.len() == n0,
                k + rest@.len() == all.len(),
                rest@ == all.skip(k as int),
                map_entries(done@, instance_view()) == map_entries(map_entries(all, instance_view()).take(k as int), f),
                f == (|v: InstanceView| instance_without(v, id, as_member)),
                tree_wf(t),
                t.instances == map_entries(all, instance_view()),
            decreases rest@.len(),
        {
            let (key, mut inst) = rest.remove(0);
            proof {
                assert(all[k as int] == (key, inst));
                assert(t.instances[k as int] == (key, inst@));
            }
            inst.forget(id, as_member);
            let ghost prev = done@;
            done.push((key, inst));
            proof {
                assert(rest@ =~= all.skip(k + 1));
                assert(map_entries(done@, instance_view()) =~= map_entries(prev, instance_view()).push((key, f(t.instances[k as int].1))));
                assert(map_entries(map_entries(all, instance_view()).take(k + 1), f) =~= map_entries(
                    map_entries(all, instance_view()).take(k as int),
                    f,
                ).push((key, f(t.instances[k as int].1))));
            }
            k = k + 1;
        }
        self.instances = done;
        proof {
            assert(map_entries(all, instance_view()).take(all.len() as int) =~= map_entries(all, instance_view()));
            let n = self@.instances;
            assert forall|a: int, b: int| 0 <= a < b < n.len() implies #[trigger] n[a].0 < #[trigger] n[b].0 by {
                assert(n[a].0 == t.instances[a].0 && n[b].0 == t.instances[b].0);
            }
            assert forall|i: int| 0 <= i < n.len() implies instance_wf((#[trigger] n[i]).1) && 1 <= n[i].0 <= 4094 by {
                crate::keyed::lemma_without_unique(t.instances[i].1.received, id);
                lemma_ports_without(t.instances[i].1.ports, id);
                lemma_since_without_len(t.instances[i].1.ports, t.instances[i].1.since, id);
            }
            assert(self@ =~= TreeView { instances: map_entries(t.instances, f), ..t });
        }
    }
}

impl Device {
    /// Set the bridge priority of `vlan`, a multiple of 4096, on a switching device.
    pub fn set_stp_priority(&self, stp: &mut SpanningTree, vlan: VlanId, priority: u16) -> (r: Result<(), DeviceError>)
        requires
            tree_wf(old(stp)@),
        ensures
            tree_wf(final(stp)@),
            r is Ok <==> crate::inventory::switching(self@.device_type) && priority % 4096 == 0,
            r is Ok ==> final(stp)@ == (TreeView { priorities: put(old(stp)@.priorities, vlan@, priority), ..old(stp)@ }),
            r matches Err(e) ==> e == DeviceError::InvalidSpanningTree && final(stp)@ == old(stp)@,
    {
        if !self.supports_switching() || priority % 4096 != 0 {
            return Err(DeviceError::InvalidSpanningTree);
        }
        let ghost t = stp@;
        proof {
            lemma_put_unique(t.priorities, vlan@, priority);
        }
        let mut i: usize = 0;
        while i < stp.priorities.len()
            invariant
                stp@ == t,
                t == old(stp)@,
                tree_wf(t),
                crate::inventory::switching(self@.device_type),
                priority % 4096 == 0,
                keys_unique(put(t.priorities, vlan@, priority)),
                keys_unique(t.priorities),
                i <= t.priorities.len(),
                forall|j: int| 0 <= j < i ==> #[trigger] t.priorities[j].0 != vlan@,
            decreases t.priorities.len() - i,
        {
            if stp.priorities[i].0 == vlan.get() {
                proof {
                    lemma_key_index(t.priorities, i as int);
                }
                stp.priorities.set(i, (vlan.get(), priority));
                proof {
                    assert(stp@ =~= TreeView { priorities: put(t.priorities, vlan@, priority), ..t });
                }
                return Ok(());
            }
            i = i + 1;
        }
        stp.priorities.push((vlan.get(), priority));
        proof {
            assert(stp@ =~= TreeView { priorities: put(t.priorities, vlan@, priority), ..t });
        }
        Ok(())
    }

    /// Set the spanning-tree policy of switchport `id`.
    pub fn set_stp_port(&self, stp: &mut SpanningTree, id: InterfaceId, policy: StpPortConfig) -> (r: Result<(), DeviceError>)
        requires
            device_wf(self@),
            tree_wf(old(stp)@),
        ensures
            tree_wf(final(stp)@),
            r is Ok <==> crate::inventory::l2_spec(self@, id) && port_policy_ok(policy),
            r is Ok ==> final(stp)@ == (TreeView { port_policies: put(old(stp)@.port_policies, id, policy), ..old(stp)@ }),
            r matches Err(e) ==> e == DeviceError::InvalidSpanningTree && final(stp)@ == old(stp)@,
    {
        let cost_ok = match policy.cost {
            Some(c) => 1 <= c && c <= 200_000_000,
            None => true,
        };
        if !self.is_switchport(id) || policy.priority % 16 != 0 || !cost_ok {
            return Err(DeviceError::InvalidSpanningTree);
        }
        let ghost t = stp@;
        proof {
            lemma_put_unique(t.port_policies, id, policy);
        }
        let mut i: usize = 0;
        while i < stp.port_policies.len()
            invariant
                stp@ == t,
                t == old(stp)@,
                tree_wf(t),
                crate::inventory::l2_spec(self@, id),
                port_policy_ok(policy),
                keys_unique(put(t.port_policies, id, policy)),
                keys_unique(t.port_policies),
                i <= t.port_policies.len(),
                forall|j: int| 0 <= j < i ==> #[trigger] t.port_policies[j].0 != id,
            decreases t.port_policies.len() - i,
        {
            if stp.port_policies[i].0.0 == id.0 {
                proof {
                    lemma_key_index(t.port_policies, i as int);
                }
                stp.port_policies.set(i, (id, policy));
                proof {
                    assert(stp@ =~= TreeView { port_policies: put(t.port_policies, id, policy), ..t });
                }
                return Ok(());
            }
            i = i + 1;
        }
        stp.port_policies.push((id, policy));
        proof {
            assert(stp@ =~= TreeView { port_policies: put(t.port_policies, id, policy), ..t });
        }
        Ok(())
    }

    /// Select rapid or classic spanning tree on a switching device; the trees start over.
    pub fn set_stp_rapid(&self, stp: &mut SpanningTree, rapid: bool) -> (r: Result<(), DeviceError>)
        requires
            tree_wf(old(stp)@),
        ensures
            tree_wf(final(stp)@),
            r is Ok <==> crate::inventory::switching(self@.device_type),
            r is Ok ==> final(stp)@ == (TreeView { rapid, instances: Seq::empty(), ..old(stp)@ }),
            r matches Err(e) ==> e == DeviceError::InvalidSpanningTree && final(stp)@ == old(stp)@,
    {
        if !self.supports_switching() {
            return Err(DeviceError::InvalidSpanningTree);
        }
        let ghost t = stp@;
        stp.rapid = rapid;
        stp.instances = Vec::new();
        proof {
            assert(stp@.instances =~= Seq::<(u32, InstanceView)>::empty());
            assert(stp@ =~= TreeView { rapid, instances: Seq::empty(), ..t });
        }
        Ok(())
    }
}

/// The role and state of every member port, in VLAN order and then port order.
pub open spec fn port_states(s: Seq<(u32, InstanceView)>) -> Seq<(u16, InterfaceId, StpPortRole, StpPortState)>
    decreases s.len(),
{
    if s.len() == 0 {
        Seq::empty()
    } else {
        let last = s.last();
        port_states(s.drop_last()) + last.1.ports.map_values(
            |p: (InterfaceId, StpPortRole, StpPortState)| (last.0 as u16, p.0, p.1, p.2),
        )
    }
}

/// Port states with VLAN numbers.
pub open spec fn states_view(r: Seq<(VlanId, InterfaceId, StpPortRole, StpPortState)>) -> Seq<(u16, InterfaceId, StpPortRole, StpPortState)> {
    r.map_values(|e: (VlanId, InterfaceId, StpPortRole, StpPortState)| (e.0@, e.1, e.2, e.3))
}

impl SpanningTree {
    /// The tree of `vlan`.
    pub fn instance(&self, vlan: VlanId) -> (r: Option<&StpInstance>)
        requires
            tree_wf(self@),
        ensures
            match r {
                Some(x) => has_key(self@.instances, vlan@ as u32) && x@ == value_of(self@.instances, vlan@ as u32),
                None => !has_key(self@.instances, vlan@ as u32),
            },
    {
        let ghost t = self@;
        proof {
            assert forall|a: int, b: int| 0 <= a < b < self.instances@.len() implies #[trigger] self.instances@[a].0
                < #[trigger] self.instances@[b].0 by {
                assert(t.instances[a].0 == self.instances@[a].0 && t.instances[b].0 == self.instances@[b].0);
            }
            lemma_map_entries_keys(self.instances@, instance_view(), vlan@ as u32);
        }
        match find_sequence(&self.instances, vlan.get() as u32) {
            None => None,
            Some(i) => Some(&self.instances[i].1),
        }
    }

    /// The role and state of every member port, in VLAN order and then port order.
    pub fn stp_port_states(&self) -> (r: Vec<(VlanId, InterfaceId, StpPortRole, StpPortState)>)
        requires
            tree_wf(self@),
        ensures
            states_view(r@) == port_states(self@.instances),
    {
        let ghost t = self@;
        let mut out: Vec<(VlanId, InterfaceId, StpPortRole, StpPortState)> = Vec::new();
        let mut i: usize = 0;
        while i < self.instances.len()
            invariant
                t == self@,
                tree_wf(t),
                t.instances.len() == self.instances@.len(),
                i <= t.instances.len(),
                states_view(out@) == port_states(t.instances.take(i as int)),
            decreases t.instances.len() - i,
        {
            let key = self.instances[i].0;
            let ports = &self.instances[i].1.ports;
            assert(t.instances[i as int] == (key, self.instances@[i as int].1@));
            let vlan = match VlanId::new(key as u16) {
                Ok(x) => x,
                Err(_) => {
                    return out;
                },
            };
            let ghost base = out@;
            let mut k: usize = 0;
            while k < ports.len()
                invariant
                    vlan@ == key as u16,
                    k <= ports@.len(),
                    states_view(out@) == states_view(base) + ports@.take(k as int).map_values(
                        |p: (InterfaceId, StpPortRole, StpPortState)| (key as u16, p.0, p.1, p.2),
                    ),
                decreases ports@.len() - k,
            {
                let (p, role, state) = ports[k];
                let ghost prev = out@;
                out.push((vlan, p, role, state));
                proof {
                    assert(states_view(out@) =~= states_view(prev).push((key as u16, p, role, state)));
                    assert(ports@.take(k + 1) =~= ports@.take(k as int).push(ports@[k as int]));
                    assert(states_view(out@) =~= states_view(base) + ports@.take(k + 1).map_values(
                        |p: (InterfaceId, StpPortRole, StpPortState)| (key as u16, p.0, p.1, p.2),
                    ));
                }
                k = k + 1;
            }
            proof {
                assert(ports@.take(ports@.len() as int) =~= ports@);
                assert(t.instances.take(i + 1).drop_last() =~= t.instances.take(i as int));
                assert(t.instances.take(i + 1).last() == t.instances[i as int]);
                assert(states_view(out@) =~= port_states(t.instances.take(i + 1)));
            }
            i = i + 1;
        }
        proof {
            assert(t.instances.take(t.instances.len() as int) =~= t.instances);
        }
        out
    }
}

impl Device {
    /// Take a configuration BPDU heard on `interface` in `vlan` at `now`. On a port with BPDU
    /// guard the port is shut down (err-disabled) and the BPDU dropped; otherwise it is taken
    /// as `receive_stp` takes it. Returns whether the port was shut down.
    pub fn receive_stp_packet(
        &mut self,
        stp: &mut SpanningTree,
        macs: &mut MacTable,
        interface: InterfaceId,
        vlan: VlanId,
        bpdu: ConfigurationBpdu,
        now: u64,
    ) -> (r: bool)
        requires
            device_wf(old(self)@),
            tree_wf(old(stp)@),
            mac_table_wf(old(macs)@),
        ensures
            device_wf(final(self)@),
            tree_wf(final(stp)@),
            mac_table_wf(final(macs)@),
            r == (bpdu_guarded(old(stp)@.port_policies, interface) && slot(old(self)@, interface) is Some),
            r ==> final(stp)@ == old(stp)@ && final(macs)@ == old(macs)@ && final(self)@ == edit_spec(
                old(self)@,
                interface,
                (|c: crate::inventory::InterfaceConfigView| crate::inventory::InterfaceConfigView { admin_state: AdminState::ErrDisabled, ..c }),
            ).0,
            !r ==> final(self)@ == old(self)@ && if takes_bpdu(old(self)@, interface, vlan@, bpdu) {
                &&& final(stp)@ == (TreeView {
                    instances: sorted_put(
                        old(stp)@.instances,
                        vlan@ as u32,
                        heard_instance(old(self)@, old(stp)@.instances, old(stp)@.port_policies, interface, vlan@, bpdu, now),
                    ),
                    ..old(stp)@
                })
                &&& final(macs)@ == crate::keyed::kept(
                    old(macs)@,
                    survives(
                        prior(old(stp)@.instances, vlan@ as u32),
                        heard_instance(old(self)@, old(stp)@.instances, old(stp)@.port_policies, interface, vlan@, bpdu, now),
                    ),
                )
            } else {
                final(stp)@ == old(stp)@ && final(macs)@ == old(macs)@
            },
    {
        if bpdu_guard_on(&stp.port_policies, interface) && self.interface(interface).is_some() {
            let _ = self.set_admin_state(interface, AdminState::ErrDisabled);
            return true;
        }
        self.receive_stp(stp, macs, interface, vlan, bpdu, now);
        false
    }
}

} // verus!
