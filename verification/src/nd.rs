//! IPv6 neighbor discovery on a device: which destinations it listens to, how it answers a
//! Neighbor Solicitation (including duplicate address detection) and a Router Solicitation,
//! and how the addresses of an interface are formed and kept by stateless autoconfiguration.
use crate::ipv6::{link_local, Ipv6Addr};
use crate::keyed::{has_key, key_index, keys_unique, lemma_key_index, lemma_put_unique, put, value_of};
use crate::mac::MacAddress;
use crate::neighbor::{after, learn_spec, NeighborCache};
use crate::router_advertisement::{lifetime, two_hour_rule, slaac_valid_until, PrefixInformation};
use crate::routing::InterfaceId;
use vstd::prelude::*;

verus! {

/// The all-nodes multicast address ff02::1.
pub const ALL_NODES: u128 = 0xff02_0000_0000_0000_0000_0000_0000_0001;

/// The all-routers multicast address ff02::2.
pub const ALL_ROUTERS: u128 = 0xff02_0000_0000_0000_0000_0000_0000_0002;

/// The most addresses an interface keeps.
pub const ADDRESS_LIMIT: usize = 32;

/// The solicited-node multicast address of `a`: ff02::1:ff00:0/104 with the low 24 bits of `a`.
pub open spec fn solicited_node(a: u128) -> u128 {
    0xff02_0000_0000_0000_0000_0001_ff00_0000u128 | (a & 0xff_ffffu128)
}

/// Whether an address is multicast (ff00::/8).
pub open spec fn multicast6(a: u128) -> bool {
    a >= 0xff00_0000_0000_0000_0000_0000_0000_0000u128
}

/// Whether neighbor discovery to `destination` is for this device: any unicast
/// destination, all nodes, all routers when the device forwards, or the solicited-node
/// group of one of its `addresses` on the interface.
pub open spec fn destination_spec(destination: Ipv6Addr, forwarding: bool, addresses: Seq<Ipv6Addr>) -> bool {
    !multicast6(destination.0) || destination.0 == ALL_NODES || (destination.0 == ALL_ROUTERS && forwarding)
        || exists|i: int| 0 <= i < addresses.len() && solicited_node((#[trigger] addresses[i]).0) == destination.0
}

/// Whether neighbor discovery to `destination` is for this device.
pub fn nd_destination_accepted(destination: Ipv6Addr, forwarding: bool, addresses: &[Ipv6Addr]) -> (r: bool)
    ensures
        r == destination_spec(destination, forwarding, addresses@),
{
    if destination.0 < 0xff00_0000_0000_0000_0000_0000_0000_0000u128 || destination.0 == ALL_NODES || (destination.0
        == ALL_ROUTERS && forwarding) {
        return true;
    }
    let mut i: usize = 0;
    while i < addresses.len()
        invariant
            i <= addresses@.len(),
            forall|j: int| 0 <= j < i ==> solicited_node((#[trigger] addresses@[j]).0) != destination.0,
        decreases addresses@.len() - i,
    {
        let group = 0xff02_0000_0000_0000_0000_0001_ff00_0000u128 | (addresses[i].0 & 0xff_ffffu128);
        if group == destination.0 {
            return true;
        }
        i = i + 1;
    }
    false
}

/// A Neighbor Advertisement to send: to `destination` (at `destination_mac` when known,
/// else the group's multicast address), for `target` at `target_mac`, with its flags.
#[derive(Debug, Clone, Copy, PartialEq, Eq)]
pub struct NeighborAdvertisement {
    pub destination: Ipv6Addr,
    pub destination_mac: Option<MacAddress>,
    pub target: Ipv6Addr,
    pub target_mac: MacAddress,
    pub router: bool,
    pub solicited: bool,
    pub override_flag: bool,
}

/// The neighbor cache and answer after a Neighbor Solicitation from `source` (sent from
/// `sender_mac`, carrying source link-layer address `option_mac`) for `target` on `id`.
/// `duplicate` tells whether the solicitation showed `target` to be a tentative address of
/// this device (it is then duplicate and not answered); `owned` whether `target` is a usable
/// address of the interface; `forwarding` whether the device routes IPv6. The solicitor's
/// link-layer address is learned; a solicitation from the unspecified address (duplicate
/// address detection) is answered to all nodes, unsolicited; any other to its source.
pub open spec fn solicitation_spec(
    c: Seq<((InterfaceId, Ipv6Addr), crate::neighbor::Ipv6Neighbor)>,
    id: InterfaceId,
    source: Ipv6Addr,
    sender_mac: MacAddress,
    option_mac: Option<MacAddress>,
    target: Ipv6Addr,
    owned: bool,
    duplicate: bool,
    forwarding: bool,
    own_mac: MacAddress,
    now: u64,
) -> (Seq<((InterfaceId, Ipv6Addr), crate::neighbor::Ipv6Neighbor)>, Option<NeighborAdvertisement>) {
    if duplicate || !owned {
        (c, None)
    } else {
        let c2 = match option_mac {
            Some(m) => learn_spec(c, id, source, m, false, now),
            None => c,
        };
        let dad = source.0 == 0;
        (
            c2,
            Some(
                NeighborAdvertisement {
                    destination: if dad {
                        Ipv6Addr(ALL_NODES)
                    } else {
                        source
                    },
                    destination_mac: if dad {
                        None
                    } else {
                        Some(sender_mac)
                    },
                    target,
                    target_mac: own_mac,
                    router: forwarding,
                    solicited: !dad,
                    override_flag: true,
                },
            ),
        )
    }
}

/// Answer a Neighbor Solicitation for `target` on `id`.
pub fn receive_solicitation(
    cache: &mut NeighborCache,
    id: InterfaceId,
    source: Ipv6Addr,
    sender_mac: MacAddress,
    option_mac: Option<MacAddress>,
    target: Ipv6Addr,
    owned: bool,
    duplicate: bool,
    forwarding: bool,
    own_mac: MacAddress,
    now: u64,
) -> (r: Option<NeighborAdvertisement>)
    requires
        keys_unique(old(cache)@),
    ensures
        keys_unique(final(cache)@),
        (final(cache)@, r) == solicitation_spec(
            old(cache)@,
            id,
            source,
            sender_mac,
            option_mac,
            target,
            owned,
            duplicate,
            forwarding,
            own_mac,
            now,
        ),
{
    if duplicate || !owned {
        return None;
    }
    if let Some(m) = option_mac {
        cache.learn_neighbor(id, source, m, false, now);
    }
    let dad = source.0 == 0;
    Some(
        NeighborAdvertisement {
            destination: if dad {
                Ipv6Addr(ALL_NODES)
            } else {
                source
            },
            destination_mac: if dad {
                None
            } else {
                Some(sender_mac)
            },
            target,
            target_mac: own_mac,
            router: forwarding,
            solicited: !dad,
            override_flag: true,
        },
    )
}

/// When the next Router Advertisement is due after a Router Solicitation at `now`: no later
/// than it was due, and no earlier than three seconds after the last one sent.
pub open spec fn ra_due_spec(ra_due: u64, ra_last: Option<u64>, now: u64) -> u64 {
    let earliest = match ra_last {
        Some(l) => if after(l, 3) > now {
            after(l, 3)
        } else {
            now
        },
        None => now,
    };
    if earliest < ra_due {
        earliest
    } else {
        ra_due
    }
}

/// Answer a Router Solicitation from `source` on `id`, carrying source link-layer address
/// `option_mac`: a router that advertises on the interface (`forwarding` and not
/// `suppressed`) learns the solicitor and brings its next advertisement forward; the new
/// due time is returned.
pub fn receive_router_solicitation(
    cache: &mut NeighborCache,
    id: InterfaceId,
    source: Ipv6Addr,
    option_mac: Option<MacAddress>,
    forwarding: bool,
    suppressed: bool,
    ra_due: u64,
    ra_last: Option<u64>,
    now: u64,
) -> (r: u64)
    requires
        keys_unique(old(cache)@),
    ensures
        keys_unique(final(cache)@),
        if forwarding && !suppressed {
            &&& final(cache)@ == match option_mac {
                Some(m) => learn_spec(old(cache)@, id, source, m, false, now),
                None => old(cache)@,
            }
            &&& r == ra_due_spec(ra_due, ra_last, now)
        } else {
            final(cache)@ == old(cache)@ && r == ra_due
        },
{
    if !forwarding || suppressed {
        return ra_due;
    }
    if let Some(m) = option_mac {
        cache.learn_neighbor(id, source, m, false, now);
    }
    let earliest = match ra_last {
        Some(l) => {
            let next = l.saturating_add(3_000_000);
            if next > now {
                next
            } else {
                now
            }
        },
        None => now,
    };
    if earliest < ra_due {
        earliest
    } else {
        ra_due
    }
}

/// The state of an address of an interface.
#[derive(Debug, Clone, Copy, PartialEq, Eq, Structural)]
pub enum Ipv6AddressState {
    Tentative,
    Preferred,
    Deprecated,
    Duplicate,
}

/// Where an address of an interface comes from.
#[derive(Debug, Clone, Copy, PartialEq, Eq, Structural)]
pub enum Ipv6AddressOrigin {
    LinkLocal,
    Manual,
    Slaac,
}

/// An address of an interface: its prefix length, state and origin, when it stops being
/// preferred and valid (none: never), and when duplicate address detection is due.
#[derive(Debug, Clone, Copy, PartialEq, Eq)]
pub struct Ipv6AddressEntry {
    pub prefix_len: u8,
    pub state: Ipv6AddressState,
    pub origin: Ipv6AddressOrigin,
    pub preferred_until: Option<u64>,
    pub valid_until: Option<u64>,
    pub dad_due: Option<u64>,
    pub dad_sent: bool,
}

/// The addresses of one interface, each once.
#[derive(Debug)]
pub struct InterfaceAddresses {
    entries: Vec<(u128, Ipv6AddressEntry)>,
}

impl View for InterfaceAddresses {
    type V = Seq<(u128, Ipv6AddressEntry)>;

    closed spec fn view(&self) -> Seq<(u128, Ipv6AddressEntry)> {
        self.entries@
    }
}

/// The modified EUI-64 interface identifier of a hardware address: its octets with the
/// universal/local bit flipped and ff:fe in the middle.
pub open spec fn interface_identifier(m: MacAddress) -> u128 {
    (((m.0@[0] ^ 2u8) as u128) * 0x100_0000_0000_0000 + (m.0@[1] as u128) * 0x1_0000_0000_0000 + (m.0@[2] as u128)
        * 0x100_0000_0000 + 0xff_0000_0000 + 0xfe00_0000 + (m.0@[3] as u128) * 0x1_0000 + (m.0@[4] as u128) * 0x100
        + (m.0@[5] as u128)) as u128
}

/// The addresses after marking `target` duplicate when it is tentative; the flag tells
/// whether it was.
pub open spec fn duplicate_spec(a: Seq<(u128, Ipv6AddressEntry)>, target: u128) -> (Seq<(u128, Ipv6AddressEntry)>, bool) {
    if has_key(a, target) && value_of(a, target).state == Ipv6AddressState::Tentative {
        (put(a, target, Ipv6AddressEntry { state: Ipv6AddressState::Duplicate, dad_due: None, ..value_of(a, target) }), true)
    } else {
        (a, false)
    }
}

/// The addresses after prefix option `info` on an interface with hardware address `mac`;
/// `autoconfig` tells whether the interface forms addresses from advertisements. An
/// autonomous /64 prefix that is not ignored forms the address of the prefix and the
/// interface identifier. An existing autoconfigured address has its valid lifetime extended
/// by the two-hour rule and its preferred lifetime taken from the option, and a preferred or
/// deprecated one becomes deprecated exactly when the preferred lifetime is zero. A new
/// address, when the valid lifetime is nonzero and the interface has room, starts tentative
/// with duplicate address detection due now.
pub open spec fn slaac_spec(
    a: Seq<(u128, Ipv6AddressEntry)>,
    info: PrefixInformation,
    autoconfig: bool,
    mac: MacAddress,
    now: u64,
) -> Seq<(u128, Ipv6AddressEntry)> {
    let address = info.prefix@.0 | interface_identifier(mac);
    if crate::router_advertisement::prefix_ignored(info) || !autoconfig || !info.autonomous || info.prefix@.1 != 64 {
        a
    } else if has_key(a, address) {
        let e = value_of(a, address);
        if e.origin != Ipv6AddressOrigin::Slaac {
            a
        } else {
            let state = if e.state == Ipv6AddressState::Preferred || e.state == Ipv6AddressState::Deprecated {
                if info.preferred_lifetime == 0 {
                    Ipv6AddressState::Deprecated
                } else {
                    Ipv6AddressState::Preferred
                }
            } else {
                e.state
            };
            put(
                a,
                address,
                Ipv6AddressEntry {
                    valid_until: two_hour_rule(e.valid_until, info.valid_lifetime, now),
                    preferred_until: lifetime(now, info.preferred_lifetime),
                    state,
                    ..e
                },
            )
        }
    } else if info.valid_lifetime > 0 && a.len() < ADDRESS_LIMIT {
        put(
            a,
            address,
            Ipv6AddressEntry {
                prefix_len: 64,
                state: Ipv6AddressState::Tentative,
                origin: Ipv6AddressOrigin::Slaac,
                preferred_until: lifetime(now, info.preferred_lifetime),
                valid_until: lifetime(now, info.valid_lifetime),
                dad_due: Some(now),
                dad_sent: false,
            },
        )
    } else {
        a
    }
}

/// The interface identifier of a hardware address, computed.
fn interface_identifier_exec(m: MacAddress) -> (r: u128)
    ensures
        r == interface_identifier(m),
{
    ((m.0[0] ^ 2u8) as u128) * 0x100_0000_0000_0000 + (m.0[1] as u128) * 0x1_0000_0000_0000 + (m.0[2] as u128)
        * 0x100_0000_0000 + 0xff_0000_0000 + 0xfe00_0000 + (m.0[3] as u128) * 0x1_0000 + (m.0[4] as u128) * 0x100
        + (m.0[5] as u128)
}

impl InterfaceAddresses {
    /// No addresses.
    pub fn new() -> (r: InterfaceAddresses)
        ensures
            r@ == Seq::<(u128, Ipv6AddressEntry)>::empty(),
    {
        let r = InterfaceAddresses { entries: Vec::new() };
        assert(r@ =~= Seq::<(u128, Ipv6AddressEntry)>::empty());
        r
    }

    /// The addresses, each with its entry.
    pub fn addresses(&self) -> (r: &[(u128, Ipv6AddressEntry)])
        ensures
            r@ == self@,
    {
        self.entries.as_slice()
    }

    /// Where `address` is.
    fn find(&self, address: u128) -> (r: Option<usize>)
        requires
            keys_unique(self@),
        ensures
            match r {
                Some(i) => i < self@.len() && has_key(self@, address) && key_index(self@, address) == i,
                None => !has_key(self@, address),
            },
    {
        let mut i: usize = 0;
        while i < self.entries.len()
            invariant
                keys_unique(self@),
                i <= self@.len(),
                forall|j: int| 0 <= j < i ==> #[trigger] self@[j].0 != address,
            decreases self@.len() - i,
        {
            if self.entries[i].0 == address {
                proof {
                    lemma_key_index(self@, i as int);
                }
                return Some(i);
            }
            i = i + 1;
        }
        None
    }

    /// Add or replace the entry of `address`.
    pub fn set_address(&mut self, address: u128, e: Ipv6AddressEntry)
        requires
            keys_unique(old(self)@),
        ensures
            keys_unique(final(self)@),
            final(self)@ == put(old(self)@, address, e),
    {
        proof {
            lemma_put_unique(self@, address, e);
        }
        match self.find(address) {
            Some(i) => {
                self.entries.set(i, (address, e));
            },
            None => {
                self.entries.push((address, e));
            },
        }
    }

    /// Mark `target` duplicate when it is tentative, ending its detection; returns whether
    /// it was.
    pub fn mark_duplicate(&mut self, target: u128) -> (r: bool)
        requires
            keys_unique(old(self)@),
        ensures
            keys_unique(final(self)@),
            (final(self)@, r) == duplicate_spec(old(self)@, target),
    {
        match self.find(target) {
            Some(i) => {
                let e = self.entries[i].1;
                if e.state == Ipv6AddressState::Tentative {
                    self.set_address(target, Ipv6AddressEntry { state: Ipv6AddressState::Duplicate, dad_due: None, ..e });
                    true
                } else {
                    false
                }
            },
            None => false,
        }
    }

    /// Form or refresh the autoconfigured address of prefix option `info` on an interface
    /// with hardware address `mac`.
    pub fn slaac_update(&mut self, info: PrefixInformation, autoconfig: bool, mac: MacAddress, now: u64)
        requires
            keys_unique(old(self)@),
        ensures
            keys_unique(final(self)@),
            final(self)@ == slaac_spec(old(self)@, info, autoconfig, mac, now),
    {
        let prefix = info.prefix.address();
        if prefix.is_unicast_link_local() || prefix.0 >= 0xff00_0000_0000_0000_0000_0000_0000_0000u128
            || info.preferred_lifetime > info.valid_lifetime || !autoconfig || !info.autonomous
            || info.prefix.prefix_len() != 64 {
            return;
        }
        let address = prefix.0 | interface_identifier_exec(mac);
        let preferred = if info.preferred_lifetime == 0xffff_ffff {
            None
        } else {
            Some(now.saturating_add(info.preferred_lifetime as u64 * 1_000_000))
        };
        match self.find(address) {
            Some(i) => {
                let e = self.entries[i].1;
                if e.origin != Ipv6AddressOrigin::Slaac {
                    return;
                }
                let state = if e.state == Ipv6AddressState::Preferred || e.state == Ipv6AddressState::Deprecated {
                    if info.preferred_lifetime == 0 {
                        Ipv6AddressState::Deprecated
                    } else {
                        Ipv6AddressState::Preferred
                    }
                } else {
                    e.state
                };
                let valid = slaac_valid_until(e.valid_until, info.valid_lifetime, now);
                self.set_address(address, Ipv6AddressEntry { valid_until: valid, preferred_until: preferred, state, ..e });
            },
            None => {
                if info.valid_lifetime > 0 && self.entries.len() < ADDRESS_LIMIT {
                    let valid = if info.valid_lifetime == 0xffff_ffff {
                        None
                    } else {
                        Some(now.saturating_add(info.valid_lifetime as u64 * 1_000_000))
                    };
                    self.set_address(
                        address,
                        Ipv6AddressEntry {
                            prefix_len: 64,
                            state: Ipv6AddressState::Tentative,
                            origin: Ipv6AddressOrigin::Slaac,
                            preferred_until: preferred,
                            valid_until: valid,
                            dad_due: Some(now),
                            dad_sent: false,
                        },
                    );
                }
            },
        }
    }
}

} // verus!
