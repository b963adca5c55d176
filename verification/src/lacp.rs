//! LACP on port-channel members: the actor information of a member, the partners heard,
//! the selection of one partner per bundle, and the synchronization, collecting and
//! distributing flags each advertisement carries.
use crate::inventory::{
    device_wf, ethernet, slot, up_spec, ChannelMode, Device, DeviceView,
};
use crate::keyed::{has_key, key_index, keys_unique, kept, lemma_key_index, lemma_put_unique, put, value_of};
use crate::routing::InterfaceId;
use crate::spanning_tree::mac_value;
use crate::mac::MacAddress;
use vstd::prelude::*;

verus! {

/// The actor wants to aggregate actively.
pub const LACP_ACTIVITY: u8 = 0x01;

/// Short timeouts.
pub const LACP_TIMEOUT: u8 = 0x02;

/// The port may aggregate.
pub const LACP_AGGREGATION: u8 = 0x04;

/// The port is in sync with its partner.
pub const LACP_SYNC: u8 = 0x08;

/// The port collects frames.
pub const LACP_COLLECTING: u8 = 0x10;

/// The port distributes frames.
pub const LACP_DISTRIBUTING: u8 = 0x20;

/// The partner information is the default, none having been heard.
pub const LACP_DEFAULTED: u8 = 0x40;

/// How long a heard partner stays valid: three seconds, in microseconds.
pub const LACP_HOLD_US: u64 = 3_000_000;

/// The identity and state of one end of an LACP link.
#[derive(Debug, Clone, Copy, PartialEq, Eq, Default)]
pub struct LacpPortInfo {
    pub system_priority: u16,
    pub system: [u8; 6],
    pub key: u16,
    pub port_priority: u16,
    pub port: u16,
    pub state: u8,
}

/// An LACP data unit: the sender as actor, its view of the partner, and the collector delay.
#[derive(Debug, Clone, Copy, PartialEq, Eq, Default)]
pub struct Lacpdu {
    pub actor: LacpPortInfo,
    pub partner: LacpPortInfo,
    pub collector_delay: u16,
}

/// The latest advertisement heard on a member, valid until `expires_at` (microseconds).
#[derive(Debug, Clone, Copy, PartialEq, Eq)]
pub struct LacpNeighbor {
    pub pdu: Lacpdu,
    pub expires_at: u64,
}

/// The partners heard, at most one per member port, in the order first heard.
#[derive(Debug, Clone, PartialEq, Eq)]
pub struct LacpNeighbors {
    entries: Vec<(InterfaceId, LacpNeighbor)>,
}

impl View for LacpNeighbors {
    type V = Seq<(InterfaceId, LacpNeighbor)>;

    closed spec fn view(&self) -> Seq<(InterfaceId, LacpNeighbor)> {
        self.entries@
    }
}

/// The information all zero, as before any partner is heard.
pub open spec fn default_info() -> LacpPortInfo {
    LacpPortInfo { system_priority: 0, system: [0u8, 0u8, 0u8, 0u8, 0u8, 0u8], key: 0, port_priority: 0, port: 0, state: 0 }
}

/// Whether `recorded`, a partner's view of this end, describes `actor`: the same system
/// priority, system, key, port priority and port.
pub open spec fn describes(recorded: LacpPortInfo, actor: LacpPortInfo) -> bool {
    &&& recorded.system_priority == actor.system_priority
    &&& recorded.system == actor.system
    &&& recorded.key == actor.key
    &&& recorded.port_priority == actor.port_priority
    &&& recorded.port == actor.port
}

impl LacpPortInfo {
    /// Whether this information, recorded by a partner, describes `actor`: the same system
    /// priority, system, key, port priority and port.
    pub fn matches(&self, actor: &LacpPortInfo) -> (r: bool)
        ensures
            r == describes(*self, *actor),
    {
        self.system_priority == actor.system_priority && same_system(self.system, actor.system) && self.key == actor.key
            && self.port_priority == actor.port_priority && self.port == actor.port
    }
}

/// Whether two system identifiers are equal.
fn same_system(a: [u8; 6], b: [u8; 6]) -> (r: bool)
    ensures
        r == (a == b),
{
    let r = a[0] == b[0] && a[1] == b[1] && a[2] == b[2] && a[3] == b[3] && a[4] == b[4] && a[5] == b[5];
    proof {
        if r {
            assert(a@ =~= b@);
            vstd::array::axiom_array_ext_equal(a, b);
        }
    }
    r
}

/// A system identifier as a number.
pub open spec fn system_value(s: [u8; 6]) -> int {
    mac_value(MacAddress(s))
}

/// Distinct system identifiers are distinct numbers.
proof fn lemma_system_value_injective(a: [u8; 6], b: [u8; 6])
    requires
        system_value(a) == system_value(b),
    ensures
        a == b,
{
    let x = a@;
    let y = b@;
    assert(x[0] == y[0] && x[1] == y[1] && x[2] == y[2] && x[3] == y[3] && x[4] == y[4] && x[5] == y[5]) by (nonlinear_arith)
        requires
            x[0] * 0x100_0000_0000 + x[1] * 0x1_0000_0000 + x[2] * 0x100_0000 + x[3] * 0x1_0000 + x[4] * 0x100 + x[5]
                == y[0] * 0x100_0000_0000 + y[1] * 0x1_0000_0000 + y[2] * 0x100_0000 + y[3] * 0x1_0000 + y[4] * 0x100 + y[5],
            0 <= x[0] < 256 && 0 <= x[1] < 256 && 0 <= x[2] < 256 && 0 <= x[3] < 256 && 0 <= x[4] < 256 && 0 <= x[5] < 256,
            0 <= y[0] < 256 && 0 <= y[1] < 256 && 0 <= y[2] < 256 && 0 <= y[3] < 256 && 0 <= y[4] < 256 && 0 <= y[5] < 256,
    ;
    assert(a@ =~= b@);
    vstd::array::axiom_array_ext_equal(a, b);
}

/// The lowest hardware address among the Ethernet ports of the first `k` interfaces.
pub open spec fn lowest_ethernet(v: DeviceView, k: int) -> Option<MacAddress>
    decreases k,
{
    if k <= 0 {
        None
    } else {
        let rest = lowest_ethernet(v, k - 1);
        let iface = v.interfaces[k - 1].0;
        if !ethernet(iface.kind) {
            rest
        } else {
            match rest {
                None => Some(iface.mac_address),
                Some(m) => if mac_value(iface.mac_address) < mac_value(m) {
                    Some(iface.mac_address)
                } else {
                    rest
                },
            }
        }
    }
}

/// The actor information of member `id`: it must be an up member of a bundle that runs
/// LACP. The system is the lowest Ethernet address of the device, the key the bundle number.
pub open spec fn actor_spec(v: DeviceView, id: InterfaceId) -> Option<LacpPortInfo> {
    match slot(v, id) {
        None => None,
        Some(i) => match v.interfaces[i].1.channel_group {
            None => None,
            Some(g) => if g.mode == ChannelMode::On || !up_spec(v, id) {
                None
            } else {
                match lowest_ethernet(v, v.interfaces.len() as int) {
                    None => None,
                    Some(m) => Some(
                        LacpPortInfo {
                            system_priority: 32768,
                            system: m.0,
                            key: g.number,
                            port_priority: 32768,
                            port: id.0 as u16,
                            state: if g.mode == ChannelMode::Active {
                                LACP_TIMEOUT | LACP_AGGREGATION | LACP_ACTIVITY
                            } else {
                                LACP_TIMEOUT | LACP_AGGREGATION
                            },
                        },
                    ),
                }
            },
        },
    }
}

/// What identifies the partner an advertisement comes from: its system priority, system
/// and key.
pub open spec fn partner_of(e: (InterfaceId, LacpNeighbor)) -> (u16, [u8; 6], u16) {
    (e.1.pdu.actor.system_priority, e.1.pdu.actor.system, e.1.pdu.actor.key)
}

/// Whether partner `a` is preferred to `b`: lower priority, then lower system, then lower key.
pub open spec fn partner_less(a: (u16, [u8; 6], u16), b: (u16, [u8; 6], u16)) -> bool {
    ||| a.0 < b.0
    ||| a.0 == b.0 && system_value(a.1) < system_value(b.1)
    ||| a.0 == b.0 && a.1 == b.1 && a.2 < b.2
}

/// Whether entry `k` is a partner heard on an up member of bundle `number`.
pub open spec fn eligible(v: DeviceView, n: Seq<(InterfaceId, LacpNeighbor)>, number: u16, k: int) -> bool {
    &&& 0 <= k < n.len()
    &&& up_spec(v, n[k].0)
    &&& slot(v, n[k].0) matches Some(i) && v.interfaces[i].1.channel_group matches Some(g) && g.number == number
}

/// Whether `t` is the preferred partner heard on the up members of bundle `number`.
pub open spec fn preferred(v: DeviceView, n: Seq<(InterfaceId, LacpNeighbor)>, number: u16, t: (u16, [u8; 6], u16)) -> bool {
    &&& exists|k: int| #[trigger] eligible(v, n, number, k) && partner_of(n[k]) == t
    &&& forall|j: int| #[trigger] eligible(v, n, number, j) ==> !partner_less(partner_of(n[j]), t)
}

/// The partner selected for bundle `number`: the preferred one heard on its up members.
pub open spec fn selected_spec(v: DeviceView, n: Seq<(InterfaceId, LacpNeighbor)>, number: u16) -> Option<(u16, [u8; 6], u16)> {
    if exists|k: int| #[trigger] eligible(v, n, number, k) {
        Some(choose|t: (u16, [u8; 6], u16)| preferred(v, n, number, t))
    } else {
        None
    }
}

/// Preference between partners is a strict total order.
proof fn lemma_partner_order()
    ensures
        forall|a: (u16, [u8; 6], u16)| !partner_less(a, a),
        forall|a: (u16, [u8; 6], u16), b: (u16, [u8; 6], u16), c: (u16, [u8; 6], u16)|
            #![trigger partner_less(a, b), partner_less(b, c)]
            partner_less(a, b) && partner_less(b, c) ==> partner_less(a, c),
{
    assert forall|a: (u16, [u8; 6], u16), b: (u16, [u8; 6], u16), c: (u16, [u8; 6], u16)|
        partner_less(a, b) && partner_less(b, c) implies partner_less(a, c) by {
        if a.0 == b.0 && b.0 == c.0 && !(system_value(a.1) < system_value(c.1)) {
            if system_value(a.1) == system_value(c.1) {
                lemma_system_value_injective(a.1, c.1);
                if a.1 != b.1 {
                    if system_value(a.1) == system_value(b.1) {
                        lemma_system_value_injective(a.1, b.1);
                    }
                }
                if b.1 != c.1 {
                    if system_value(b.1) == system_value(c.1) {
                        lemma_system_value_injective(b.1, c.1);
                    }
                }
            }
        }
    }
}

/// Two partners neither preferred to the other are the same.
proof fn lemma_partner_total(a: (u16, [u8; 6], u16), b: (u16, [u8; 6], u16))
    requires
        !partner_less(a, b),
        !partner_less(b, a),
    ensures
        a == b,
{
    if system_value(a.1) == system_value(b.1) {
        lemma_system_value_injective(a.1, b.1);
    }
}

/// At most one partner is preferred.
proof fn lemma_preferred_unique(
    v: DeviceView,
    n: Seq<(InterfaceId, LacpNeighbor)>,
    number: u16,
    t1: (u16, [u8; 6], u16),
    t2: (u16, [u8; 6], u16),
)
    requires
        preferred(v, n, number, t1),
        preferred(v, n, number, t2),
    ensures
        t1 == t2,
{
    let k1 = choose|k: int| #[trigger] eligible(v, n, number, k) && partner_of(n[k]) == t1;
    let k2 = choose|k: int| #[trigger] eligible(v, n, number, k) && partner_of(n[k]) == t2;
    assert(!partner_less(partner_of(n[k1]), t2));
    assert(!partner_less(partner_of(n[k2]), t1));
    lemma_partner_total(t1, t2);
}

/// The advertisement heard on `id`, if any.
pub open spec fn heard(n: Seq<(InterfaceId, LacpNeighbor)>, id: InterfaceId) -> Option<LacpNeighbor> {
    if has_key(n, id) {
        Some(value_of(n, id))
    } else {
        None
    }
}

/// The advertisement member `id` sends, given the partners heard `n`. Nothing is sent by a
/// port outside LACP, nor by a passive port whose partner is passive or unheard. The
/// partner is the one heard, or all zeros. A port whose partner is the selected one of its
/// bundle, records this port correctly and may aggregate is in sync; it collects once the
/// partner is in sync, and distributes once the partner also collects. A port that heard no
/// partner says so.
pub open spec fn advert_spec(v: DeviceView, n: Seq<(InterfaceId, LacpNeighbor)>, id: InterfaceId) -> Option<Lacpdu> {
    match actor_spec(v, id) {
        None => None,
        Some(actor) => {
            let nb = heard(n, id);
            if actor.state & LACP_ACTIVITY == 0 && match nb {
                None => true,
                Some(p) => p.pdu.actor.state & LACP_ACTIVITY == 0,
            } {
                None
            } else {
                let partner = match nb {
                    None => default_info(),
                    Some(p) => p.pdu.actor,
                };
                let selected = selected_spec(v, n, actor.key) == Some((partner.system_priority, partner.system, partner.key));
                let state = match nb {
                    None => actor.state | LACP_DEFAULTED,
                    Some(p) => if selected && describes(p.pdu.partner, actor) && partner.state & LACP_AGGREGATION != 0 {
                        if partner.state & LACP_SYNC != 0 {
                            if partner.state & LACP_COLLECTING != 0 {
                                actor.state | LACP_SYNC | LACP_COLLECTING | LACP_DISTRIBUTING
                            } else {
                                actor.state | LACP_SYNC | LACP_COLLECTING
                            }
                        } else {
                            actor.state | LACP_SYNC
                        }
                    } else {
                        actor.state
                    },
                };
                Some(Lacpdu { actor: LacpPortInfo { state, ..actor }, partner, collector_delay: 0 })
            }
        },
    }
}

/// Whether `a` is preferred to `b`, computed.
fn partner_less_exec(a: (u16, [u8; 6], u16), b: (u16, [u8; 6], u16)) -> (r: bool)
    ensures
        r == partner_less(a, b),
{
    let sa = crate::spanning_tree::mac_value_exec(MacAddress(a.1));
    let sb = crate::spanning_tree::mac_value_exec(MacAddress(b.1));
    a.0 < b.0 || (a.0 == b.0 && sa < sb) || (a.0 == b.0 && same_system(a.1, b.1) && a.2 < b.2)
}

impl LacpNeighbors {
    /// No partner heard.
    pub fn new() -> (r: LacpNeighbors)
        ensures
            r@ == Seq::<(InterfaceId, LacpNeighbor)>::empty(),
    {
        LacpNeighbors { entries: Vec::new() }
    }

    /// The partners heard, with the member each was heard on.
    pub fn lacp_neighbors(&self) -> (r: &Vec<(InterfaceId, LacpNeighbor)>)
        ensures
            r@ == self@,
    {
        &self.entries
    }

    /// Where the partner heard on `id` is.
    fn position(&self, id: InterfaceId) -> (r: Option<usize>)
        requires
            keys_unique(self@),
        ensures
            match r {
                Some(i) => i < self@.len() && has_key(self@, id) && key_index(self@, id) == i,
                None => !has_key(self@, id),
            },
    {
        let mut i: usize = 0;
        while i < self.entries.len()
            invariant
                keys_unique(self@),
                i <= self@.len(),
                forall|j: int| 0 <= j < i ==> #[trigger] self@[j].0 != id,
            decreases self@.len() - i,
        {
            if self.entries[i].0.0 == id.0 {
                proof {
                    lemma_key_index(self@, i as int);
                }
                return Some(i);
            }
            i = i + 1;
        }
        None
    }

    /// Record `nb` as the partner heard on `id`, replacing the one it had.
    fn record(&mut self, id: InterfaceId, nb: LacpNeighbor)
        requires
            keys_unique(old(self)@),
        ensures
            final(self)@ == put(old(self)@, id, nb),
            keys_unique(final(self)@),
    {
        proof {
            lemma_put_unique(self@, id, nb);
        }
        match self.position(id) {
            Some(i) => self.entries.set(i, (id, nb)),
            None => self.entries.push((id, nb)),
        }
    }

    /// Forget the partner heard on `id`, for a member that lost carrier or was shut down.
    pub fn forget(&mut self, id: InterfaceId)
        requires
            keys_unique(old(self)@),
        ensures
            final(self)@ == crate::keyed::without(old(self)@, id),
            keys_unique(final(self)@),
    {
        proof {
            crate::keyed::lemma_without_unique(self@, id);
        }
        match self.position(id) {
            Some(i) => {
                let _ = self.entries.remove(i);
            },
            None => {},
        }
    }
}

impl Device {
    /// The actor information of member `id`.
    fn lacp_actor(&self, id: InterfaceId) -> (r: Option<LacpPortInfo>)
        requires
            device_wf(self@),
        ensures
            r == actor_spec(self@, id),
    {
        let ghost v = self@;
        let g = match self.interface(id) {
            None => {
                return None;
            },
            Some((_, config)) => match config.channel_group {
                None => {
                    return None;
                },
                Some(g) => g,
            },
        };
        if g.mode == ChannelMode::On || !self.protocol_up(id) {
            return None;
        }
        let n = self.interface_count();
        let mut low: Option<MacAddress> = None;
        let mut k: usize = 0;
        while k < n
            invariant
                v == self@,
                device_wf(v),
                n == v.interfaces.len(),
                k <= n,
                low == lowest_ethernet(v, k as int),
            decreases n - k,
        {
            let iface = *self.interface(InterfaceId((k + 1) as u64)).unwrap().0;
            if iface.kind.is_ethernet() {
                low = match low {
                    None => Some(iface.mac_address),
                    Some(m) => if crate::spanning_tree::mac_value_exec(iface.mac_address) < crate::spanning_tree::mac_value_exec(m) {
                        Some(iface.mac_address)
                    } else {
                        Some(m)
                    },
                };
            }
            k = k + 1;
        }
        let m = match low {
            None => {
                return None;
            },
            Some(m) => m,
        };
        let state = if g.mode == ChannelMode::Active {
            LACP_TIMEOUT | LACP_AGGREGATION | LACP_ACTIVITY
        } else {
            LACP_TIMEOUT | LACP_AGGREGATION
        };
        Some(LacpPortInfo { system_priority: 32768, system: m.0, key: g.number, port_priority: 32768, port: id.0 as u16, state })
    }

    /// The partner selected for bundle `number`.
    fn selected_partner(&self, neighbors: &LacpNeighbors, number: u16) -> (r: Option<(u16, [u8; 6], u16)>)
        requires
            device_wf(self@),
        ensures
            r == selected_spec(self@, neighbors@, number),
    {
        let ghost v = self@;
        let ghost n = neighbors@;
        let mut best: Option<(u16, [u8; 6], u16)> = None;
        let mut k: usize = 0;
        while k < neighbors.entries.len()
            invariant
                v == self@,
                device_wf(v),
                n == neighbors@,
                k <= n.len(),
                match best {
                    None => forall|j: int| 0 <= j < k ==> !#[trigger] eligible(v, n, number, j),
                    Some(t) => (exists|j: int| 0 <= j < k && #[trigger] eligible(v, n, number, j) && partner_of(n[j]) == t)
                        && forall|j: int| 0 <= j < k && #[trigger] eligible(v, n, number, j) ==> !partner_less(partner_of(n[j]), t),
                },
            decreases n.len() - k,
        {
            let (id, nb) = neighbors.entries[k];
            let member = self.protocol_up(id) && match self.interface(id) {
                None => false,
                Some((_, config)) => match config.channel_group {
                    None => false,
                    Some(g) => g.number == number,
                },
            };
            assert(member == eligible(v, n, number, k as int));
            if member {
                let t = (nb.pdu.actor.system_priority, nb.pdu.actor.system, nb.pdu.actor.key);
                assert(t == partner_of(n[k as int]));
                let take = match best {
                    None => true,
                    Some(b) => partner_less_exec(t, b),
                };
                proof {
                    lemma_partner_order();
                }
                if take {
                    proof {
                        if let Some(b) = best {
                            assert forall|j: int| 0 <= j < k + 1 && #[trigger] eligible(v, n, number, j) implies !partner_less(partner_of(n[j]), t) by {
                                if j < k && partner_less(partner_of(n[j]), t) {
                                    assert(partner_less(partner_of(n[j]), b));
                                }
                            }
                        }
                    }
                    best = Some(t);
                } else {
                    proof {
                        if let Some(b) = best {
                            assert forall|j: int| 0 <= j < k + 1 && #[trigger] eligible(v, n, number, j) implies !partner_less(partner_of(n[j]), b) by {}
                            let w = choose|j: int| 0 <= j < k && #[trigger] eligible(v, n, number, j) && partner_of(n[j]) == b;
                            assert(0 <= w < k + 1);
                        }
                    }
                }
            } else {
                proof {
                    if let Some(b) = best {
                        let w = choose|j: int| 0 <= j < k && #[trigger] eligible(v, n, number, j) && partner_of(n[j]) == b;
                        assert(0 <= w < k + 1);
                    }
                }
            }
            k = k + 1;
        }
        proof {
            match best {
                None => {
                    assert(!exists|j: int| #[trigger] eligible(v, n, number, j));
                },
                Some(t) => {
                    assert(preferred(v, n, number, t));
                    let c = choose|t2: (u16, [u8; 6], u16)| preferred(v, n, number, t2);
                    lemma_preferred_unique(v, n, number, t, c);
                },
            }
        }
        best
    }
}

/// Whether two optional advertisements are equal.
fn same_advert(a: Option<Lacpdu>, b: Option<Lacpdu>) -> (r: bool)
    ensures
        r == (a == b),
{
    match (a, b) {
        (None, None) => true,
        (Some(x), Some(y)) => same_info(x.actor, y.actor) && same_info(x.partner, y.partner) && x.collector_delay
            == y.collector_delay,
        _ => false,
    }
}

/// Whether two port informations are equal.
fn same_info(a: LacpPortInfo, b: LacpPortInfo) -> (r: bool)
    ensures
        r == (a == b),
{
    a.system_priority == b.system_priority && same_system(a.system, b.system) && a.key == b.key && a.port_priority
        == b.port_priority && a.port == b.port && a.state == b.state
}

/// Whether an advertisement heard from a partner is acceptable for `actor`: another system,
/// neither all zeros nor a group address, a nonzero port, and willing to aggregate.
pub open spec fn acceptable(pdu: Lacpdu, actor: LacpPortInfo) -> bool {
    &&& pdu.actor.system != actor.system
    &&& !(forall|i: int| 0 <= i < 6 ==> #[trigger] pdu.actor.system@[i] == 0)
    &&& pdu.actor.system@[0] % 2 == 0
    &&& pdu.actor.port != 0
    &&& pdu.actor.state & LACP_AGGREGATION != 0
}

/// The expiry of a partner heard at `now`: the hold time later, at most the largest time.
pub open spec fn hold_until(now: u64) -> u64 {
    if now + LACP_HOLD_US > u64::MAX {
        u64::MAX
    } else {
        (now + LACP_HOLD_US) as u64
    }
}

/// The partners and reply after hearing `pdu` on member `id` at `now`: an acceptable
/// advertisement replaces what the member heard, and the new advertisement is returned when
/// it differs from the one before.
pub open spec fn receive_spec(v: DeviceView, n: Seq<(InterfaceId, LacpNeighbor)>, id: InterfaceId, pdu: Lacpdu, now: u64) -> (
    Seq<(InterfaceId, LacpNeighbor)>,
    Option<Lacpdu>,
) {
    match actor_spec(v, id) {
        None => (n, None),
        Some(actor) => if !acceptable(pdu, actor) {
            (n, None)
        } else {
            let n2 = put(n, id, LacpNeighbor { pdu, expires_at: hold_until(now) });
            let before = advert_spec(v, n, id);
            let after = advert_spec(v, n2, id);
            (
                n2,
                if before != after {
                    after
                } else {
                    None
                },
            )
        },
    }
}

/// The advertisements of the first `k` interfaces, in interface order.
pub open spec fn adverts_upto(v: DeviceView, n: Seq<(InterfaceId, LacpNeighbor)>, k: int) -> Seq<(InterfaceId, Lacpdu)>
    decreases k,
{
    if k <= 0 {
        Seq::empty()
    } else {
        let rest = adverts_upto(v, n, k - 1);
        match advert_spec(v, n, InterfaceId(k as u64)) {
            Some(p) => rest.push((InterfaceId(k as u64), p)),
            None => rest,
        }
    }
}

/// Whether a heard partner is still valid at `now`.
pub open spec fn still_heard(now: u64) -> spec_fn(LacpNeighbor) -> bool {
    |nb: LacpNeighbor| nb.expires_at > now
}

/// Whether an interface is a bundle member that runs LACP.
pub open spec fn runs_lacp(c: crate::inventory::InterfaceConfigView) -> bool {
    c.channel_group matches Some(g) && g.mode != ChannelMode::On
}

impl Device {
    /// The advertisement member `id` sends, built from the partner it heard.
    pub fn lacp_advertisement(&self, neighbors: &LacpNeighbors, id: InterfaceId) -> (r: Option<Lacpdu>)
        requires
            device_wf(self@),
            keys_unique(neighbors@),
        ensures
            r == advert_spec(self@, neighbors@, id),
    {
        let actor = match self.lacp_actor(id) {
            None => {
                return None;
            },
            Some(a) => a,
        };
        let nb = match neighbors.position(id) {
            None => None,
            Some(i) => Some(neighbors.entries[i].1),
        };
        assert(nb == heard(neighbors@, id));
        let quiet_partner = match nb {
            None => true,
            Some(p) => p.pdu.actor.state & LACP_ACTIVITY == 0,
        };
        if actor.state & LACP_ACTIVITY == 0 && quiet_partner {
            return None;
        }
        let partner = match nb {
            None => LacpPortInfo { system_priority: 0, system: [0u8, 0u8, 0u8, 0u8, 0u8, 0u8], key: 0, port_priority: 0, port: 0, state: 0 },
            Some(p) => p.pdu.actor,
        };
        let selected = match self.selected_partner(neighbors, actor.key) {
            None => false,
            Some(t) => t.0 == partner.system_priority && same_system(t.1, partner.system) && t.2 == partner.key,
        };
        let state = match nb {
            None => actor.state | LACP_DEFAULTED,
            Some(p) => if selected && p.pdu.partner.matches(&actor) && partner.state & LACP_AGGREGATION != 0 {
                if partner.state & LACP_SYNC != 0 {
                    if partner.state & LACP_COLLECTING != 0 {
                        actor.state | LACP_SYNC | LACP_COLLECTING | LACP_DISTRIBUTING
                    } else {
                        actor.state | LACP_SYNC | LACP_COLLECTING
                    }
                } else {
                    actor.state | LACP_SYNC
                }
            } else {
                actor.state
            },
        };
        Some(Lacpdu { actor: LacpPortInfo { state, ..actor }, partner, collector_delay: 0 })
    }

    /// Hear `pdu` on member `id` at `now`; returns an immediate advertisement only when the
    /// member's advertisement changes.
    pub fn receive_lacp(&self, neighbors: &mut LacpNeighbors, id: InterfaceId, pdu: Lacpdu, now: u64) -> (r: Option<Lacpdu>)
        requires
            device_wf(self@),
            keys_unique(old(neighbors)@),
        ensures
            keys_unique(final(neighbors)@),
            (final(neighbors)@, r) == receive_spec(self@, old(neighbors)@, id, pdu, now),
    {
        let actor = match self.lacp_actor(id) {
            None => {
                return None;
            },
            Some(a) => a,
        };
        let s = pdu.actor.system;
        let zero = s[0] == 0 && s[1] == 0 && s[2] == 0 && s[3] == 0 && s[4] == 0 && s[5] == 0;
        proof {
            if !zero {
                assert(!(forall|i: int| 0 <= i < 6 ==> #[trigger] s@[i] == 0)) by {
                    if s@[0] != 0 {
                        assert(s@[0] != 0);
                    } else if s@[1] != 0 {
                        assert(s@[1] != 0);
                    } else if s@[2] != 0 {
                        assert(s@[2] != 0);
                    } else if s@[3] != 0 {
                        assert(s@[3] != 0);
                    } else if s@[4] != 0 {
                        assert(s@[4] != 0);
                    } else {
                        assert(s@[5] != 0);
                    }
                }
            }
        }
        let first = s[0];
        assert(first & 1 == first % 2) by (bit_vector);
        if same_system(s, actor.system) || zero || first & 1 != 0 || pdu.actor.port == 0 || pdu.actor.state & LACP_AGGREGATION == 0 {
            return None;
        }
        let before = self.lacp_advertisement(neighbors, id);
        neighbors.record(id, LacpNeighbor { pdu, expires_at: now.saturating_add(LACP_HOLD_US) });
        let after = self.lacp_advertisement(neighbors, id);
        if same_advert(before, after) {
            None
        } else {
            after
        }
    }

    /// Forget partners that fell silent by `now`, then produce the advertisement of every
    /// member that sends one, in interface order.
    pub fn lacp_tick(&self, neighbors: &mut LacpNeighbors, now: u64) -> (r: Vec<(InterfaceId, Lacpdu)>)
        requires
            device_wf(self@),
            keys_unique(old(neighbors)@),
        ensures
            keys_unique(final(neighbors)@),
            final(neighbors)@ == kept(old(neighbors)@, still_heard(now)),
            r@ == adverts_upto(self@, final(neighbors)@, self@.interfaces.len() as int),
    {
        let ghost before = neighbors@;
        let mut fresh: Vec<(InterfaceId, LacpNeighbor)> = Vec::new();
        let mut i: usize = 0;
        while i < neighbors.entries.len()
            invariant
                neighbors@ == before,
                i <= before.len(),
                fresh@ == kept(before.take(i as int), still_heard(now)),
            decreases before.len() - i,
        {
            let e = neighbors.entries[i];
            proof {
                assert(before.take(i + 1).drop_last() =~= before.take(i as int));
                assert(before.take(i + 1).last() == e);
            }
            if e.1.expires_at > now {
                fresh.push(e);
            }
            i = i + 1;
        }
        proof {
            assert(before.take(before.len() as int) =~= before);
            crate::keyed::lemma_kept(before, still_heard(now));
        }
        neighbors.entries = fresh;
        let ghost v = self@;
        let n = self.interface_count();
        let mut out: Vec<(InterfaceId, Lacpdu)> = Vec::new();
        let mut k: usize = 0;
        while k < n
            invariant
                v == self@,
                device_wf(v),
                keys_unique(neighbors@),
                n == v.interfaces.len(),
                k <= n,
                out@ == adverts_upto(v, neighbors@, k as int),
            decreases n - k,
        {
            let id = InterfaceId((k + 1) as u64);
            match self.lacp_advertisement(neighbors, id) {
                Some(p) => out.push((id, p)),
                None => {},
            }
            k = k + 1;
        }
        out
    }

    /// Whether member `id` advertises that it distributes frames.
    pub fn lacp_distributing(&self, neighbors: &LacpNeighbors, id: InterfaceId) -> (r: bool)
        requires
            device_wf(self@),
            keys_unique(neighbors@),
        ensures
            r == (advert_spec(self@, neighbors@, id) matches Some(p) && p.actor.state & LACP_DISTRIBUTING != 0),
    {
        match self.lacp_advertisement(neighbors, id) {
            None => false,
            Some(p) => p.actor.state & LACP_DISTRIBUTING != 0,
        }
    }

    /// Whether some member runs LACP and so needs the LACP timer.
    pub fn has_lacp(&self) -> (r: bool)
        requires
            device_wf(self@),
        ensures
            r == exists|i: int|
                0 <= i < self@.interfaces.len() && runs_lacp(#[trigger] self@.interfaces[i].1),
    {
        let ghost v = self@;
        let n = self.interface_count();
        let mut k: usize = 0;
        while k < n
            invariant
                v == self@,
                device_wf(v),
                n == v.interfaces.len(),
                k <= n,
                forall|i: int| 0 <= i < k ==> !runs_lacp(#[trigger] v.interfaces[i].1),
            decreases n - k,
        {
            match self.interface(InterfaceId((k + 1) as u64)).unwrap().1.channel_group {
                Some(g) => {
                    if g.mode != ChannelMode::On {
                        return true;
                    }
                },
                None => {},
            }
            k = k + 1;
        }
        false
    }
}

/// The flags of an advertisement nest and follow the partner: a member distributes only
/// when it collects, collects only when in sync, and is in sync only with the selected
/// partner, heard on it, that records it correctly and may aggregate; it collects only when
/// that partner is in sync and distributes only when the partner also collects. A member
/// that heard no partner says so and is not in sync.
pub proof fn lemma_lacp_flags_follow_partner(v: DeviceView, n: Seq<(InterfaceId, LacpNeighbor)>, id: InterfaceId)
    ensures
        advert_spec(v, n, id) matches Some(p) ==> {
            let s = p.actor.state;
            &&& (s & LACP_DISTRIBUTING != 0 ==> s & LACP_COLLECTING != 0)
            &&& (s & LACP_COLLECTING != 0 ==> s & LACP_SYNC != 0)
            &&& (s & LACP_SYNC != 0 ==> {
                &&& heard(n, id) matches Some(nb)
                &&& selected_spec(v, n, p.actor.key) == Some((nb.pdu.actor.system_priority, nb.pdu.actor.system, nb.pdu.actor.key))
                &&& describes(nb.pdu.partner, actor_spec(v, id)->0)
                &&& nb.pdu.actor.state & LACP_AGGREGATION != 0
                &&& p.partner == nb.pdu.actor
            })
            &&& (s & LACP_COLLECTING != 0 ==> p.partner.state & LACP_SYNC != 0)
            &&& (s & LACP_DISTRIBUTING != 0 ==> p.partner.state & LACP_COLLECTING != 0)
            &&& (s & LACP_DEFAULTED != 0 <==> heard(n, id) is None)
        },
{
    if let Some(p) = advert_spec(v, n, id) {
        let actor = actor_spec(v, id)->0;
        let b = actor.state;
        assert(b == 6u8 || b == 7u8) by {
            assert((2u8 | 4u8 | 1u8) == 7u8) by (bit_vector);
            assert((2u8 | 4u8) == 6u8) by (bit_vector);
        }
        assert({
            &&& b & 0x20u8 == 0 && b & 0x10u8 == 0 && b & 0x08u8 == 0 && b & 0x40u8 == 0
            &&& (b | 0x40u8) & 0x20u8 == 0 && (b | 0x40u8) & 0x10u8 == 0 && (b | 0x40u8) & 0x08u8 == 0 && (b | 0x40u8) & 0x40u8 != 0
            &&& (b | 0x08u8) & 0x20u8 == 0 && (b | 0x08u8) & 0x10u8 == 0 && (b | 0x08u8) & 0x08u8 != 0 && (b | 0x08u8) & 0x40u8 == 0
            &&& (b | 0x08u8 | 0x10u8) & 0x20u8 == 0 && (b | 0x08u8 | 0x10u8) & 0x10u8 != 0 && (b | 0x08u8 | 0x10u8) & 0x08u8 != 0
                && (b | 0x08u8 | 0x10u8) & 0x40u8 == 0
            &&& (b | 0x08u8 | 0x10u8 | 0x20u8) & 0x20u8 != 0 && (b | 0x08u8 | 0x10u8 | 0x20u8) & 0x10u8 != 0 && (b | 0x08u8
                | 0x10u8 | 0x20u8) & 0x08u8 != 0 && (b | 0x08u8 | 0x10u8 | 0x20u8) & 0x40u8 == 0
        }) by (bit_vector)
            requires
                b == 6u8 || b == 7u8,
        ;
    }
}

/// A passive member whose partner is passive or unheard sends nothing.
pub proof fn lemma_passive_pair_is_silent(v: DeviceView, n: Seq<(InterfaceId, LacpNeighbor)>, id: InterfaceId)
    requires
        slot(v, id) matches Some(i) && v.interfaces[i].1.channel_group matches Some(g) && g.mode == ChannelMode::Passive,
        heard(n, id) matches Some(nb) ==> nb.pdu.actor.state & LACP_ACTIVITY == 0,
    ensures
        advert_spec(v, n, id) is None,
{
    if let Some(actor) = actor_spec(v, id) {
        assert(actor.state == (2u8 | 4u8));
        assert((2u8 | 4u8) & 1u8 == 0) by (bit_vector);
    }
}

} // verus!
