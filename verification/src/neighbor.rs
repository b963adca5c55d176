//! The IPv6 neighbor cache of a device: entries learned from link-layer address options and
//! the processing of Neighbor Advertisements, per interface.
use crate::dhcp::same_mac;
use crate::ipv6::Ipv6Addr;
use crate::keyed::{has_key, key_index, keys_unique, lemma_key_index, lemma_put_unique, put, value_of};
use crate::mac::MacAddress;
use crate::routing::InterfaceId;
use vstd::prelude::*;

verus! {

/// The most neighbor entries a device keeps.
pub const NEIGHBOR_LIMIT: usize = 4096;

/// How long a confirmed neighbor stays reachable, in seconds.
pub const REACHABLE_SECONDS: u64 = 30;

/// How long an unconfirmed neighbor stays stale before it is probed, in seconds.
pub const STALE_SECONDS: u64 = 300;

/// Reachability of a neighbor.
#[derive(Debug, Clone, Copy, PartialEq, Eq, Structural)]
pub enum Ipv6NeighborState {
    Incomplete,
    Reachable,
    Stale,
    Delay,
    Probe,
}

/// An interface-scoped cache entry: the neighbor's link-layer address once known, its
/// state, whether it is a router, when its state next changes (microseconds) and how many
/// probes were sent.
#[derive(Debug, Clone, Copy, PartialEq, Eq)]
pub struct Ipv6Neighbor {
    pub interface: InterfaceId,
    pub address: Ipv6Addr,
    pub mac: Option<MacAddress>,
    pub state: Ipv6NeighborState,
    pub router: bool,
    pub deadline: u64,
    pub probes: u8,
}

/// The neighbor entries of a device, one per interface and address.
#[derive(Debug)]
pub struct NeighborCache {
    entries: Vec<((InterfaceId, Ipv6Addr), Ipv6Neighbor)>,
}

impl View for NeighborCache {
    type V = Seq<((InterfaceId, Ipv6Addr), Ipv6Neighbor)>;

    closed spec fn view(&self) -> Seq<((InterfaceId, Ipv6Addr), Ipv6Neighbor)> {
        self.entries@
    }
}

/// Whether neighbor key `a` comes before `b`: by interface, then by address.
pub open spec fn neighbor_key_before(a: (InterfaceId, Ipv6Addr), b: (InterfaceId, Ipv6Addr)) -> bool {
    a.0.0 < b.0.0 || (a.0.0 == b.0.0 && a.1.0 < b.1.0)
}

/// Entries in strictly increasing key order.
pub open spec fn neighbors_sorted(s: Seq<((InterfaceId, Ipv6Addr), Ipv6Neighbor)>) -> bool {
    forall|a: int, b: int| 0 <= a < b < s.len() ==> neighbor_key_before(#[trigger] s[a].0, #[trigger] s[b].0)
}

/// Whether `a` comes before `b`.
fn key_before(a: (InterfaceId, Ipv6Addr), b: (InterfaceId, Ipv6Addr)) -> (r: bool)
    ensures
        r == neighbor_key_before(a, b),
{
    a.0.0 < b.0.0 || (a.0.0 == b.0.0 && a.1.0 < b.1.0)
}

/// `seconds` after `now`, in microseconds, at most the largest time.
pub open spec fn after(now: u64, seconds: u64) -> u64 {
    if now + seconds * 1_000_000 > u64::MAX {
        u64::MAX
    } else {
        (now + seconds * 1_000_000) as u64
    }
}

/// Whether an address is unspecified or multicast.
pub open spec fn not_unicast6(a: Ipv6Addr) -> bool {
    a.0 == 0 || a.0 >= 0xff00_0000_0000_0000_0000_0000_0000_0000u128
}

/// Whether a link-layer address cannot be a neighbor's: a group address or all zeros.
pub open spec fn bad_mac(m: MacAddress) -> bool {
    m.0@[0] % 2 == 1 || forall|i: int| 0 <= i < 6 ==> #[trigger] m.0@[i] == 0
}

/// The cache after learning that `address` on interface `id` has link-layer address `mac`,
/// and is a router when `router`: an unusable address or link-layer address is ignored, as
/// is a new entry once the cache is full; a new entry starts stale; an entry whose
/// link-layer address changes, or that was incomplete, becomes stale with the new address;
/// the router flag is only ever set.
pub open spec fn learn_spec(
    c: Seq<((InterfaceId, Ipv6Addr), Ipv6Neighbor)>,
    id: InterfaceId,
    address: Ipv6Addr,
    mac: MacAddress,
    router: bool,
    now: u64,
) -> Seq<((InterfaceId, Ipv6Addr), Ipv6Neighbor)> {
    let key = (id, address);
    if not_unicast6(address) || bad_mac(mac) || (c.len() >= NEIGHBOR_LIMIT && !has_key(c, key)) {
        c
    } else {
        let e = if has_key(c, key) {
            value_of(c, key)
        } else {
            Ipv6Neighbor {
                interface: id,
                address,
                mac: Some(mac),
                state: Ipv6NeighborState::Stale,
                router,
                deadline: after(now, STALE_SECONDS),
                probes: 0,
            }
        };
        let e2 = if e.mac != Some(mac) || e.state == Ipv6NeighborState::Incomplete {
            Ipv6Neighbor { mac: Some(mac), state: Ipv6NeighborState::Stale, deadline: after(now, STALE_SECONDS), ..e }
        } else {
            e
        };
        put(c, key, Ipv6Neighbor { router: e2.router || router, ..e2 })
    }
}

/// The cache, and whether `target` stopped being a router, after a Neighbor Advertisement
/// for `target` on interface `id` carrying target link-layer address `mac` and the router,
/// solicited and override flags; `duplicate` tells whether `target` is one of the device's
/// own addresses found duplicate. Only an existing entry changes. A group or all-zero
/// address, or no address for an incomplete entry, is ignored. Without override, a
/// different address leaves the entry, except that a reachable one turns stale. Otherwise
/// a given address is stored; a solicited advertisement makes the entry reachable, and an
/// unsolicited one makes it stale when the address changed or it was incomplete; probes are
/// reset and the router flag taken from the advertisement.
pub open spec fn advertisement_spec(
    c: Seq<((InterfaceId, Ipv6Addr), Ipv6Neighbor)>,
    id: InterfaceId,
    target: Ipv6Addr,
    mac: Option<MacAddress>,
    router: bool,
    solicited: bool,
    override_flag: bool,
    duplicate: bool,
    now: u64,
) -> (Seq<((InterfaceId, Ipv6Addr), Ipv6Neighbor)>, bool) {
    let key = (id, target);
    if duplicate || !has_key(c, key) {
        (c, false)
    } else {
        let n = value_of(c, key);
        if (mac matches Some(m) && bad_mac(m)) || (n.state == Ipv6NeighborState::Incomplete && mac is None) {
            (c, false)
        } else if !override_flag && n.mac is Some && mac is Some && n.mac != mac {
            if n.state == Ipv6NeighborState::Reachable {
                (put(c, key, Ipv6Neighbor { state: Ipv6NeighborState::Stale, deadline: after(now, STALE_SECONDS), ..n }), false)
            } else {
                (c, false)
            }
        } else {
            let changed = mac is Some && mac != n.mac;
            let n1 = if mac is Some {
                Ipv6Neighbor { mac, ..n }
            } else {
                n
            };
            let n2 = if solicited {
                Ipv6Neighbor { state: Ipv6NeighborState::Reachable, deadline: after(now, REACHABLE_SECONDS), ..n1 }
            } else if changed || n.state == Ipv6NeighborState::Incomplete {
                Ipv6Neighbor { state: Ipv6NeighborState::Stale, deadline: after(now, STALE_SECONDS), ..n1 }
            } else {
                n1
            };
            (put(c, key, Ipv6Neighbor { probes: 0, router, ..n2 }), n.router && !router)
        }
    }
}

/// `seconds` after `now`, computed.
fn after_exec(now: u64, seconds: u64) -> (r: u64)
    requires
        seconds <= 300,
    ensures
        r == after(now, seconds),
{
    now.saturating_add(seconds * 1_000_000)
}

/// Whether a link-layer address cannot be a neighbor's, computed.
fn bad_mac_exec(m: MacAddress) -> (r: bool)
    ensures
        r == bad_mac(m),
{
    let zero = m.0[0] == 0 && m.0[1] == 0 && m.0[2] == 0 && m.0[3] == 0 && m.0[4] == 0 && m.0[5] == 0;
    proof {
        if zero {
            assert forall|i: int| 0 <= i < 6 implies #[trigger] m.0@[i] == 0 by {
                assert(m.0@[0] == 0 && m.0@[1] == 0 && m.0@[2] == 0 && m.0@[3] == 0 && m.0@[4] == 0 && m.0@[5] == 0);
            }
        }
    }
    m.is_multicast() || zero
}

/// Whether two optional link-layer addresses are equal.
fn same_option_mac(a: Option<MacAddress>, b: Option<MacAddress>) -> (r: bool)
    ensures
        r == (a == b),
{
    match (a, b) {
        (Some(x), Some(y)) => same_mac(x, y),
        (None, None) => true,
        _ => false,
    }
}

impl NeighborCache {
    /// An empty cache.
    pub fn new() -> (r: NeighborCache)
        ensures
            r@ == Seq::<((InterfaceId, Ipv6Addr), Ipv6Neighbor)>::empty(),
    {
        let r = NeighborCache { entries: Vec::new() };
        assert(r@ =~= Seq::<((InterfaceId, Ipv6Addr), Ipv6Neighbor)>::empty());
        r
    }

    /// The entries, by interface and then address.
    pub fn neighbors(&self) -> (r: Vec<((InterfaceId, Ipv6Addr), Ipv6Neighbor)>)
        requires
            keys_unique(self@),
        ensures
            neighbors_sorted(r@),
            r@.len() == self@.len(),
            forall|x: ((InterfaceId, Ipv6Addr), Ipv6Neighbor)| r@.contains(x) <==> self@.contains(x),
    {
        let ghost s = self@;
        let mut out: Vec<((InterfaceId, Ipv6Addr), Ipv6Neighbor)> = Vec::new();
        let mut i: usize = 0;
        while i < self.entries.len()
            invariant
                i <= s.len(),
                s == self@,
                keys_unique(s),
                neighbors_sorted(out@),
                out@.len() == i,
                forall|x: ((InterfaceId, Ipv6Addr), Ipv6Neighbor)| out@.contains(x) <==> s.take(i as int).contains(x),
            decreases s.len() - i,
        {
            let e = self.entries[i];
            let ghost o = out@;
            assert(e == s[i as int]);
            let mut p: usize = 0;
            while p < out.len() && key_before(out[p].0, e.0)
                invariant
                    p <= o.len(),
                    out@ == o,
                    forall|k: int| 0 <= k < p ==> neighbor_key_before((#[trigger] o[k]).0, e.0),
                decreases o.len() - p,
            {
                p = p + 1;
            }
            proof {
                assert forall|k: int| 0 <= k < o.len() implies (#[trigger] o[k]).0 != e.0 by {
                    assert(o.contains(o[k]));
                    assert(s.take(i as int).contains(o[k]));
                    let j = choose|j: int| 0 <= j < i && #[trigger] s.take(i as int)[j] == o[k];
                    assert(s[j] == o[k]);
                }
                assert forall|k: int| p <= k < o.len() implies neighbor_key_before(e.0, (#[trigger] o[k]).0) by {
                    assert(!neighbor_key_before(o[p as int].0, e.0));
                    assert(o[p as int].0 != e.0);
                    if k > p {
                        assert(neighbor_key_before(o[p as int].0, o[k].0));
                    }
                }
            }
            out.insert(p, e);
            proof {
                let n = out@;
                assert(n =~= o.insert(p as int, e));
                assert forall|a: int, b: int| 0 <= a < b < n.len() implies neighbor_key_before(#[trigger] n[a].0, #[trigger] n[b].0) by {
                    if b < p {
                        assert(n[a] == o[a] && n[b] == o[b]);
                    } else if b == p {
                        assert(n[a] == o[a]);
                    } else if a < p {
                        assert(n[a] == o[a] && n[b] == o[b - 1]);
                    } else if a == p {
                        assert(n[b] == o[b - 1]);
                    } else {
                        assert(n[a] == o[a - 1] && n[b] == o[b - 1]);
                    }
                }
                assert(s.take(i + 1) =~= s.take(i as int).push(e));
                assert forall|x: ((InterfaceId, Ipv6Addr), Ipv6Neighbor)| n.contains(x) <==> s.take(i + 1).contains(x) by {
                    if n.contains(x) {
                        let k = choose|k: int| 0 <= k < n.len() && #[trigger] n[k] == x;
                        if k < p {
                            assert(o[k] == x);
                            assert(o.contains(x));
                        } else if k > p {
                            assert(o[k - 1] == x);
                            assert(o.contains(x));
                        } else {
                            assert(s.take(i + 1)[i as int] == x);
                        }
                        if k != p {
                            assert(s.take(i as int).contains(x));
                            let j = choose|j: int| 0 <= j < i && #[trigger] s.take(i as int)[j] == x;
                            assert(s.take(i + 1)[j] == x);
                        }
                    }
                    if s.take(i + 1).contains(x) {
                        let j = choose|j: int| 0 <= j < i + 1 && #[trigger] s.take(i + 1)[j] == x;
                        if j < i {
                            assert(s.take(i as int)[j] == x);
                            assert(o.contains(x));
                            let k = choose|k: int| 0 <= k < o.len() && #[trigger] o[k] == x;
                            if k < p {
                                assert(n[k] == x);
                            } else {
                                assert(n[k + 1] == x);
                            }
                        } else {
                            assert(n[p as int] == x);
                        }
                    }
                }
            }
            i = i + 1;
        }
        proof {
            assert(s.take(s.len() as int) =~= s);
        }
        out
    }

    /// Where the entry for `key` is.
    fn find(&self, key: (InterfaceId, Ipv6Addr)) -> (r: Option<usize>)
        requires
            keys_unique(self@),
        ensures
            match r {
                Some(i) => i < self@.len() && has_key(self@, key) && key_index(self@, key) == i,
                None => !has_key(self@, key),
            },
    {
        let mut i: usize = 0;
        while i < self.entries.len()
            invariant
                keys_unique(self@),
                i <= self@.len(),
                forall|j: int| 0 <= j < i ==> #[trigger] self@[j].0 != key,
            decreases self@.len() - i,
        {
            let k = self.entries[i].0;
            if k.0.0 == key.0.0 && k.1.0 == key.1.0 {
                proof {
                    lemma_key_index(self@, i as int);
                }
                return Some(i);
            }
            i = i + 1;
        }
        None
    }

    /// Store `n` under `key`, replacing what it held.
    fn store(&mut self, key: (InterfaceId, Ipv6Addr), n: Ipv6Neighbor, found: Option<usize>)
        requires
            keys_unique(old(self)@),
            match found {
                Some(i) => i < old(self)@.len() && has_key(old(self)@, key) && key_index(old(self)@, key) == i,
                None => !has_key(old(self)@, key),
            },
        ensures
            keys_unique(final(self)@),
            final(self)@ == put(old(self)@, key, n),
    {
        proof {
            lemma_put_unique(self@, key, n);
        }
        match found {
            Some(i) => {
                self.entries.set(i, (key, n));
            },
            None => {
                self.entries.push((key, n));
            },
        }
    }

    /// Learn that `address` on interface `id` has link-layer address `mac`, and is a router
    /// when `router`.
    pub fn learn_neighbor(&mut self, id: InterfaceId, address: Ipv6Addr, mac: MacAddress, router: bool, now: u64)
        requires
            keys_unique(old(self)@),
        ensures
            keys_unique(final(self)@),
            final(self)@ == learn_spec(old(self)@, id, address, mac, router, now),
    {
        if address.0 == 0 || address.0 >= 0xff00_0000_0000_0000_0000_0000_0000_0000u128 || bad_mac_exec(mac) {
            return;
        }
        let key = (id, address);
        let found = self.find(key);
        if found.is_none() && self.entries.len() >= NEIGHBOR_LIMIT {
            return;
        }
        let e = match found {
            Some(i) => self.entries[i].1,
            None => Ipv6Neighbor {
                interface: id,
                address,
                mac: Some(mac),
                state: Ipv6NeighborState::Stale,
                router,
                deadline: after_exec(now, STALE_SECONDS),
                probes: 0,
            },
        };
        let e2 = if !same_option_mac(e.mac, Some(mac)) || e.state == Ipv6NeighborState::Incomplete {
            Ipv6Neighbor { mac: Some(mac), state: Ipv6NeighborState::Stale, deadline: after_exec(now, STALE_SECONDS), ..e }
        } else {
            e
        };
        self.store(key, Ipv6Neighbor { router: e2.router || router, ..e2 }, found);
    }

    /// Process a Neighbor Advertisement for `target` on interface `id`, carrying target
    /// link-layer address `mac` and the router, solicited and override flags; `duplicate`
    /// tells whether `target` is one of the device's own addresses found duplicate. Returns
    /// whether `target` stopped being a router, so that it leaves the default routers.
    pub fn receive_advertisement(
        &mut self,
        id: InterfaceId,
        target: Ipv6Addr,
        mac: Option<MacAddress>,
        router: bool,
        solicited: bool,
        override_flag: bool,
        duplicate: bool,
        now: u64,
    ) -> (r: bool)
        requires
            keys_unique(old(self)@),
        ensures
            keys_unique(final(self)@),
            (final(self)@, r) == advertisement_spec(
                old(self)@,
                id,
                target,
                mac,
                router,
                solicited,
                override_flag,
                duplicate,
                now,
            ),
    {
        if duplicate {
            return false;
        }
        let key = (id, target);
        let i = match self.find(key) {
            None => {
                return false;
            },
            Some(i) => i,
        };
        let n = self.entries[i].1;
        let unusable = match mac {
            Some(m) => bad_mac_exec(m),
            None => false,
        };
        if unusable || (n.state == Ipv6NeighborState::Incomplete && mac.is_none()) {
            return false;
        }
        if !override_flag && n.mac.is_some() && mac.is_some() && !same_option_mac(n.mac, mac) {
            if n.state == Ipv6NeighborState::Reachable {
                self.store(
                    key,
                    Ipv6Neighbor { state: Ipv6NeighborState::Stale, deadline: after_exec(now, STALE_SECONDS), ..n },
                    Some(i),
                );
            }
            return false;
        }
        let changed = mac.is_some() && !same_option_mac(mac, n.mac);
        let n1 = if mac.is_some() {
            Ipv6Neighbor { mac, ..n }
        } else {
            n
        };
        let n2 = if solicited {
            Ipv6Neighbor { state: Ipv6NeighborState::Reachable, deadline: after_exec(now, REACHABLE_SECONDS), ..n1 }
        } else if changed || n.state == Ipv6NeighborState::Incomplete {
            Ipv6Neighbor { state: Ipv6NeighborState::Stale, deadline: after_exec(now, STALE_SECONDS), ..n1 }
        } else {
            n1
        };
        self.store(key, Ipv6Neighbor { probes: 0, router, ..n2 }, Some(i));
        n.router && !router
    }
}

/// The cache limit: learning never takes a cache that is within the limit beyond it, and
/// an advertisement never adds an entry.
pub proof fn lemma_neighbor_limit(
    c: Seq<((InterfaceId, Ipv6Addr), Ipv6Neighbor)>,
    id: InterfaceId,
    address: Ipv6Addr,
    mac: MacAddress,
    router: bool,
    now: u64,
    advertised: Option<MacAddress>,
    solicited: bool,
    override_flag: bool,
    duplicate: bool,
)
    requires
        c.len() <= NEIGHBOR_LIMIT,
    ensures
        learn_spec(c, id, address, mac, router, now).len() <= NEIGHBOR_LIMIT,
        advertisement_spec(c, id, address, advertised, router, solicited, override_flag, duplicate, now).0.len()
            == c.len(),
{
}

} // verus!
