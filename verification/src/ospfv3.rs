//! OSPFv3 packets a router takes in on an interface: which packets it accepts at all, and
//! what a Hello does to its neighbors there (adjacency to two-way, the dead timer, a restart
//! of the database exchange when the neighbor's address or interface changes).
use crate::ipv4::Ipv4Addr;
use crate::ipv6::{link_local, Ipv6Addr};
use crate::keyed::{has_key, keys_unique, lemma_key_index, lemma_put_unique, put, value_of, key_index};
use crate::ospf::{lsa_db_wf, LsaDatabase, StoredView};
use crate::ospf_links::{increasing, insert_increasing, OspfNetworkType};
use crate::routing::InterfaceId;
use vstd::prelude::*;

verus! {

/// The options this router requires of and sends to its neighbors (V6 and E bits).
pub const OSPFV3_OPTIONS: u32 = 0x13;

/// The most neighbors a router keeps.
pub const OSPFV3_NEIGHBOR_LIMIT: usize = 256;

/// The states of an OSPF neighbor.
#[derive(Debug, Clone, Copy, PartialEq, Eq, Structural)]
pub enum Ospfv3NeighborState {
    Down,
    Init,
    TwoWay,
    ExStart,
    Exchange,
    Loading,
    Full,
}

/// What a router runs OSPFv3 with on one interface: its area, its link-local address, and
/// the hello and dead intervals its neighbors must agree on; and when it next sends a Hello.
#[derive(Debug, Clone, Copy, PartialEq, Eq)]
pub struct Ospfv3Port {
    pub area: u32,
    pub address: Ipv6Addr,
    pub hello_interval: u16,
    pub dead_interval: u32,
    pub hello_due: u64,
}

/// The header fields of an OSPFv3 packet that decide whether it is taken in.
#[derive(Debug, Clone, Copy, PartialEq, Eq)]
pub struct Ospfv3Header {
    pub area: u32,
    pub instance: u8,
    pub router_id: Ipv4Addr,
}

/// An OSPFv3 Hello.
#[derive(Debug, Clone, PartialEq, Eq)]
pub struct Ospfv3Hello {
    pub interface_id: u32,
    pub priority: u8,
    pub options: u32,
    pub hello_interval: u16,
    pub dead_interval: u16,
    pub designated_router: Ipv4Addr,
    pub backup_router: Ipv4Addr,
    pub neighbors: Vec<Ipv4Addr>,
}

/// A Hello as a mathematical value.
pub struct HelloView {
    pub interface_id: u32,
    pub priority: u8,
    pub options: u32,
    pub hello_interval: u16,
    pub dead_interval: u16,
    pub designated_router: Ipv4Addr,
    pub backup_router: Ipv4Addr,
    pub neighbors: Seq<Ipv4Addr>,
}

impl View for Ospfv3Hello {
    type V = HelloView;

    open spec fn view(&self) -> HelloView {
        HelloView {
            interface_id: self.interface_id,
            priority: self.priority,
            options: self.options,
            hello_interval: self.hello_interval,
            dead_interval: self.dead_interval,
            designated_router: self.designated_router,
            backup_router: self.backup_router,
            neighbors: self.neighbors@,
        }
    }
}

/// A neighbor on one interface: its router identifier, link-local address and interface
/// identifier, its state and priority, when it is declared dead, the designated and backup
/// routers of its last Hello, and the state of the database exchange with it, if one runs.
#[derive(Debug, Clone, Copy, PartialEq, Eq)]
pub struct Ospfv3Neighbor {
    pub router_id: Ipv4Addr,
    pub address: Ipv6Addr,
    pub interface_id: u32,
    pub state: Ospfv3NeighborState,
    pub priority: u8,
    pub dead_at: u64,
    pub designated_router: Ipv4Addr,
    pub backup_router: Ipv4Addr,
    pub exchange: Option<Ospfv3NeighborState>,
}

/// The neighbors of a router, each under its interface and router identifier, at most one
/// per key.
#[derive(Debug)]
pub struct Ospfv3Neighbors {
    entries: Vec<((InterfaceId, Ipv4Addr), Ospfv3Neighbor)>,
}

impl View for Ospfv3Neighbors {
    type V = Seq<((InterfaceId, Ipv4Addr), Ospfv3Neighbor)>;

    closed spec fn view(&self) -> Seq<((InterfaceId, Ipv4Addr), Ospfv3Neighbor)> {
        self.entries@
    }
}

/// Whether a packet from `source` with header `h` is taken in on an interface run as `port`
/// by router `self_id`: same area, instance 0, from another router with a usable identifier,
/// sent from a link-local address other than the interface's own.
pub open spec fn accept_spec(port: Ospfv3Port, self_id: Ipv4Addr, source: Ipv6Addr, h: Ospfv3Header) -> bool {
    &&& h.area == port.area
    &&& h.instance == 0
    &&& h.router_id != self_id
    &&& h.router_id.0 != 0
    &&& !(0xe000_0000 <= h.router_id.0 <= 0xefff_ffff)
    &&& h.router_id.0 != 0xffff_ffff
    &&& link_local(source.0)
    &&& source != port.address
}

/// `seconds` after `now`, in microseconds, saturating.
pub open spec fn dead_time(now: u64, seconds: u16) -> u64 {
    if now + seconds * 1_000_000 > u64::MAX {
        u64::MAX
    } else {
        (now + seconds * 1_000_000) as u64
    }
}

/// Whether a Hello agrees with the interface: same hello and dead intervals, and the
/// options this router requires.
pub open spec fn hello_agrees(port: Ospfv3Port, h: HelloView) -> bool {
    &&& h.hello_interval == port.hello_interval
    &&& h.dead_interval as u32 == port.dead_interval
    &&& h.options & OSPFV3_OPTIONS == OSPFV3_OPTIONS
}

/// A neighbor after a Hello from `source`: a new one starts in Init; a changed address or
/// interface identifier ends the exchange; without this router in the Hello's neighbor list
/// it is in Init with no exchange, else in the exchange's state or two-way.
pub open spec fn heard(
    old: Option<Ospfv3Neighbor>,
    router_id: Ipv4Addr,
    source: Ipv6Addr,
    self_id: Ipv4Addr,
    h: HelloView,
    now: u64,
) -> Ospfv3Neighbor {
    let base = match old {
        Some(n) => n,
        None => Ospfv3Neighbor {
            router_id,
            address: source,
            interface_id: h.interface_id,
            state: Ospfv3NeighborState::Init,
            priority: h.priority,
            dead_at: now,
            designated_router: h.designated_router,
            backup_router: h.backup_router,
            exchange: None,
        },
    };
    let exchange = if base.address != source || base.interface_id != h.interface_id {
        None
    } else {
        base.exchange
    };
    let two_way = h.neighbors.contains(self_id);
    Ospfv3Neighbor {
        router_id: base.router_id,
        address: source,
        interface_id: h.interface_id,
        state: if !two_way {
            Ospfv3NeighborState::Init
        } else {
            match exchange {
                Some(s) => s,
                None => Ospfv3NeighborState::TwoWay,
            }
        },
        priority: h.priority,
        dead_at: dead_time(now, h.dead_interval),
        designated_router: h.designated_router,
        backup_router: h.backup_router,
        exchange: if two_way { exchange } else { None },
    }
}

/// The neighbors, the interface and whether the Hello was taken in, after a Hello from router
/// `router_id` at `source` on interface `interface` run as `port`: one that disagrees with the
/// interface, or from a new neighbor when `OSPFV3_NEIGHBOR_LIMIT` are kept, changes nothing;
/// else the neighbor is heard, and a new neighbor is greeted at once.
pub open spec fn hello_spec(
    ns: Seq<((InterfaceId, Ipv4Addr), Ospfv3Neighbor)>,
    port: Ospfv3Port,
    interface: InterfaceId,
    source: Ipv6Addr,
    router_id: Ipv4Addr,
    self_id: Ipv4Addr,
    h: HelloView,
    now: u64,
) -> (Seq<((InterfaceId, Ipv4Addr), Ospfv3Neighbor)>, Ospfv3Port, bool) {
    let key = (interface, router_id);
    if !hello_agrees(port, h) {
        (ns, port, false)
    } else if !has_key(ns, key) && ns.len() >= OSPFV3_NEIGHBOR_LIMIT {
        (ns, port, false)
    } else {
        let fresh = !has_key(ns, key);
        let old = if fresh { None } else { Some(value_of(ns, key)) };
        (
            put(ns, key, heard(old, router_id, source, self_id, h, now)),
            if fresh { Ospfv3Port { hello_due: now, ..port } } else { port },
            true,
        )
    }
}

/// Whether a packet from `source` with header `header` is taken in on an interface run as
/// `port` by router `self_id`.
pub fn ospfv3_accept(port: &Ospfv3Port, self_id: Ipv4Addr, source: Ipv6Addr, header: &Ospfv3Header) -> (r: bool)
    ensures
        r == accept_spec(*port, self_id, source, *header),
{
    let id = header.router_id;
    header.area == port.area && header.instance == 0 && id != self_id && !id.is_unspecified()
        && !id.is_multicast() && !id.is_broadcast() && source.is_unicast_link_local() && source != port.address
}

impl Ospfv3Neighbors {
    /// No neighbors.
    pub fn new() -> (r: Ospfv3Neighbors)
        ensures
            r@ == Seq::<((InterfaceId, Ipv4Addr), Ospfv3Neighbor)>::empty(),
    {
        let r = Ospfv3Neighbors { entries: Vec::new() };
        assert(r@ =~= Seq::<((InterfaceId, Ipv4Addr), Ospfv3Neighbor)>::empty());
        r
    }

    /// The neighbors, in the order first heard.
    pub fn neighbors(&self) -> (r: &[((InterfaceId, Ipv4Addr), Ospfv3Neighbor)])
        ensures
            r@ == self@,
    {
        self.entries.as_slice()
    }

    /// Where the neighbor under `key` is.
    fn find(&self, key: (InterfaceId, Ipv4Addr)) -> (r: Option<usize>)
        requires
            keys_unique(self@),
        ensures
            match r {
                Some(i) => i < self@.len() && has_key(self@, key) && key_index(self@, key) == i,
                None => !has_key(self@, key),
            },
    {
        let mut i: usize = 0;
        while i < self.entries.len()
            invariant
                keys_unique(self@),
                i <= self@.len(),
                forall|j: int| 0 <= j < i ==> #[trigger] self@[j].0 != key,
            decreases self@.len() - i,
        {
            let k = self.entries[i].0;
            if k.0 == key.0 && k.1 == key.1 {
                proof {
                    lemma_key_index(self@, i as int);
                }
                return Some(i);
            }
            i = i + 1;
        }
        None
    }
}

/// Whether `x` is among `s`.
fn lists(s: &Vec<Ipv4Addr>, x: Ipv4Addr) -> (r: bool)
    ensures
        r == s@.contains(x),
{
    let mut i: usize = 0;
    while i < s.len()
        invariant
            i <= s@.len(),
            forall|j: int| 0 <= j < i ==> s@[j] != x,
        decreases s@.len() - i,
    {
        if s[i] == x {
            assert(s@[i as int] == x);
            return true;
        }
        i = i + 1;
    }
    false
}

/// Take in a Hello from router `router_id` at `source` on interface `interface`, run as
/// `port` by router `self_id`, at `now`. Returns whether it was taken in.
pub fn ospfv3_hello(
    neighbors: &mut Ospfv3Neighbors,
    port: &mut Ospfv3Port,
    interface: InterfaceId,
    source: Ipv6Addr,
    router_id: Ipv4Addr,
    self_id: Ipv4Addr,
    hello: &Ospfv3Hello,
    now: u64,
) -> (r: bool)
    requires
        keys_unique(old(neighbors)@),
    ensures
        keys_unique(final(neighbors)@),
        (final(neighbors)@, *final(port), r) == hello_spec(
            old(neighbors)@,
            *old(port),
            interface,
            source,
            router_id,
            self_id,
            hello@,
            now,
        ),
{
    if hello.hello_interval != port.hello_interval || hello.dead_interval as u32 != port.dead_interval
        || hello.options & OSPFV3_OPTIONS != OSPFV3_OPTIONS {
        return false;
    }
    let key = (interface, router_id);
    let found = neighbors.find(key);
    if found.is_none() && neighbors.entries.len() >= OSPFV3_NEIGHBOR_LIMIT {
        return false;
    }
    let two_way = lists(&hello.neighbors, self_id);
    let base = match found {
        Some(i) => neighbors.entries[i].1,
        None => Ospfv3Neighbor {
            router_id,
            address: source,
            interface_id: hello.interface_id,
            state: Ospfv3NeighborState::Init,
            priority: hello.priority,
            dead_at: now,
            designated_router: hello.designated_router,
            backup_router: hello.backup_router,
            exchange: None,
        },
    };
    let exchange = if base.address != source || base.interface_id != hello.interface_id {
        None
    } else {
        base.exchange
    };
    let wait: u64 = hello.dead_interval as u64 * 1_000_000;
    let n = Ospfv3Neighbor {
        router_id: base.router_id,
        address: source,
        interface_id: hello.interface_id,
        state: if !two_way {
            Ospfv3NeighborState::Init
        } else {
            match exchange {
                Some(s) => s,
                None => Ospfv3NeighborState::TwoWay,
            }
        },
        priority: hello.priority,
        dead_at: now.saturating_add(wait),
        designated_router: hello.designated_router,
        backup_router: hello.backup_router,
        exchange: if two_way { exchange } else { None },
    };
    let ghost before = neighbors@;
    match found {
        Some(i) => {
            neighbors.entries.set(i, (key, n));
            proof {
                lemma_key_index(before, i as int);
            }
        },
        None => {
            neighbors.entries.push((key, n));
            port.hello_due = now;
        },
    }
    proof {
        lemma_put_unique(before, key, n);
        assert(neighbors@ =~= put(before, key, n));
    }
    true
}

/// The keys among `keys` under which the database holds nothing yet.
pub open spec fn new_keys(d: Seq<((u32, u8, u32, u32), StoredView)>, keys: Seq<(u32, u8, u32, u32)>) -> Set<(u32, u8, u32, u32)> {
    Set::new(|k: (u32, u8, u32, u32)| keys.contains(k) && !has_key(d, k))
}

/// Whether a Link State Update carrying LSAs under `keys` fits the database: with the keys it
/// does not hold yet, it holds at most `limit` LSAs.
pub open spec fn update_fits(d: Seq<((u32, u8, u32, u32), StoredView)>, keys: Seq<(u32, u8, u32, u32)>, limit: nat) -> bool {
    d.len() + new_keys(d, keys).len() <= limit
}

/// Whether `x` is among `s`.
fn holds_key(s: &Vec<(u32, u8, u32, u32)>, x: (u32, u8, u32, u32)) -> (r: bool)
    ensures
        r == s@.contains(x),
{
    let mut i: usize = 0;
    while i < s.len()
        invariant
            i <= s@.len(),
            forall|j: int| 0 <= j < i ==> s@[j] != x,
        decreases s@.len() - i,
    {
        let k = s[i];
        if k.0 == x.0 && k.1 == x.1 && k.2 == x.2 && k.3 == x.3 {
            assert(s@[i as int] == x);
            return true;
        }
        i = i + 1;
    }
    false
}

/// Whether a Link State Update carrying LSAs under `keys` (each with its flooding scope) fits
/// a database that holds at most `limit` LSAs; one that does not fit is dropped whole.
pub fn ospfv3_update_fits(database: &LsaDatabase, keys: &[(u32, u8, u32, u32)], limit: usize) -> (r: bool)
    requires
        lsa_db_wf(database@),
    ensures
        r == update_fits(database@, keys@, limit as nat),
{
    let ghost d = database@;
    let ghost ks = keys@;
    let mut fresh: Vec<(u32, u8, u32, u32)> = Vec::new();
    let mut i: usize = 0;
    while i < keys.len()
        invariant
            i <= ks.len(),
            ks == keys@,
            d == database@,
            lsa_db_wf(d),
            fresh@.no_duplicates(),
            fresh@.to_set() == new_keys(d, ks.take(i as int)),
            fresh@.len() <= i,
        decreases ks.len() - i,
    {
        let k = keys[i];
        let ghost before = fresh@;
        let in_db = database.contains_key(k);
        let seen = holds_key(&fresh, k);
        if !in_db && !seen {
            fresh.push(k);
        }
        proof {
            assert(ks.take(i + 1) =~= ks.take(i as int).push(k));
            assert forall|x: (u32, u8, u32, u32)| ks.take(i + 1).contains(x) == (ks.take(i as int).contains(x) || x == k) by {
                if ks.take(i + 1).contains(x) {
                    let j = choose|j: int| 0 <= j < i + 1 && #[trigger] ks.take(i + 1)[j] == x;
                    if j < i {
                        assert(ks.take(i as int)[j] == x);
                    }
                }
                if ks.take(i as int).contains(x) {
                    let j = choose|j: int| 0 <= j < i && #[trigger] ks.take(i as int)[j] == x;
                    assert(ks.take(i + 1)[j] == x);
                }
                if x == k {
                    assert(ks.take(i + 1)[i as int] == x);
                }
            }
            assert forall|x: (u32, u8, u32, u32)| fresh@.contains(x) == (before.contains(x) || (x == k && !in_db && !seen)) by {
                if fresh@.contains(x) && !before.contains(x) {
                    let j = choose|j: int| 0 <= j < fresh@.len() && fresh@[j] == x;
                    if j < before.len() {
                        assert(fresh@[j] == before[j]);
                    }
                }
                if before.contains(x) {
                    let j = choose|j: int| 0 <= j < before.len() && before[j] == x;
                    assert(fresh@[j] == x);
                }
                if x == k && !in_db && !seen {
                    assert(fresh@[before.len() as int] == x);
                }
            }
            assert forall|x: (u32, u8, u32, u32)| #[trigger] fresh@.to_set().contains(x) == new_keys(d, ks.take(i + 1)).contains(x) by {
                assert(before.to_set().contains(x) == before.contains(x));
                assert(fresh@.to_set().contains(x) == fresh@.contains(x));
                assert(new_keys(d, ks.take(i as int)).contains(x) == (ks.take(i as int).contains(x) && !has_key(d, x)));
            }
            assert(fresh@.to_set() =~= new_keys(d, ks.take(i + 1)));
            if !in_db && !seen {
                assert forall|a: int, b: int| 0 <= a < b < fresh@.len() implies fresh@[a] != fresh@[b] by {
                    if b == before.len() {
                        assert(fresh@[a] == before[a]);
                        assert(before.contains(before[a]));
                    } else {
                        assert(fresh@[a] == before[a] && fresh@[b] == before[b]);
                    }
                }
            }
        }
        i = i + 1;
    }
    proof {
        assert(ks.take(ks.len() as int) =~= ks);
        fresh@.unique_seq_to_set();
    }
    database.len() <= limit && fresh.len() <= limit - database.len()
}

/// The kinds of OSPFv3 Router LSA links.
#[derive(Debug, Clone, Copy, PartialEq, Eq, Structural)]
pub enum Ospfv3LinkKind {
    PointToPoint,
    Transit,
}

/// One link of an OSPFv3 Router LSA: its kind and metric, this router's interface identifier,
/// and the neighbor's interface identifier and router identifier (for a transit link, the
/// designated router's).
#[derive(Debug, Clone, Copy, PartialEq, Eq)]
pub struct Ospfv3RouterLink {
    pub kind: Ospfv3LinkKind,
    pub metric: u16,
    pub interface_id: u32,
    pub neighbor_interface_id: u32,
    pub neighbor_router: u32,
}

/// An interface OSPFv3 runs on: its identifier, cost and network type, and the designated
/// router it knows, when it runs the protocol there.
#[derive(Debug, Clone, Copy)]
pub struct Ospfv3ActiveInterface {
    pub id: u32,
    pub cost: u16,
    pub network: OspfNetworkType,
    pub dr: Option<u32>,
}

/// A neighbor as the links need it: its interface, router identifier and interface
/// identifier, and whether the adjacency is full.
#[derive(Debug, Clone, Copy, PartialEq, Eq)]
pub struct Ospfv3LinkNeighbor {
    pub interface: u32,
    pub router_id: u32,
    pub interface_id: u32,
    pub full: bool,
}

/// The full neighbors on interface `id`, in table order.
pub open spec fn full_v3(ns: Seq<Ospfv3LinkNeighbor>, id: u32) -> Seq<Ospfv3LinkNeighbor> {
    ns.filter(|n: Ospfv3LinkNeighbor| n.interface == id && n.full)
}

/// Whether the interface is a transit network: broadcast, with a designated router that is
/// this router or one of its full neighbors there.
pub open spec fn transit_v3(i: Ospfv3ActiveInterface, full: Seq<Ospfv3LinkNeighbor>, self_id: u32) -> bool {
    &&& i.network is Broadcast
    &&& i.dr is Some
    &&& full.len() > 0
    &&& (i.dr == Some(self_id) || exists|k: int| 0 <= k < full.len() && Some(#[trigger] full[k].router_id) == i.dr)
}

/// Whether `k` is the first full neighbor that is the designated router.
pub open spec fn first_dr(full: Seq<Ospfv3LinkNeighbor>, dr: u32, k: int) -> bool {
    &&& 0 <= k < full.len()
    &&& full[k].router_id == dr
    &&& forall|j: int| 0 <= j < k ==> (#[trigger] full[j]).router_id != dr
}

/// The designated router's interface identifier: this router's interface when it is the
/// designated router, else the interface the first full neighbor that is gave.
pub open spec fn dr_interface(i: Ospfv3ActiveInterface, full: Seq<Ospfv3LinkNeighbor>, self_id: u32) -> u32 {
    if i.dr == Some(self_id) {
        i.id
    } else if exists|k: int| first_dr(full, i.dr->Some_0, k) {
        full[choose|k: int| first_dr(full, i.dr->Some_0, k)].interface_id
    } else {
        0
    }
}

/// The links an OSPFv3 interface adds to the Router LSA of router `self_id`, given its full
/// neighbors: a transit link to the designated router, and a point-to-point link to each full
/// neighbor on a point-to-point interface.
pub open spec fn links_v3_spec(i: Ospfv3ActiveInterface, full: Seq<Ospfv3LinkNeighbor>, self_id: u32) -> Seq<Ospfv3RouterLink> {
    (if transit_v3(i, full, self_id) {
        seq![Ospfv3RouterLink {
            kind: Ospfv3LinkKind::Transit,
            metric: i.cost,
            interface_id: i.id,
            neighbor_interface_id: dr_interface(i, full, self_id),
            neighbor_router: i.dr->Some_0,
        }]
    } else {
        Seq::empty()
    }) + if i.network is PointToPoint {
        full.map_values(|n: Ospfv3LinkNeighbor| Ospfv3RouterLink {
            kind: Ospfv3LinkKind::PointToPoint,
            metric: i.cost,
            interface_id: i.id,
            neighbor_interface_id: n.interface_id,
            neighbor_router: n.router_id,
        })
    } else {
        Seq::empty()
    }
}

/// The routers of a network this router is designated router of: increasing, the full
/// neighbors' identifiers and this router's.
pub open spec fn members_v3(r: Seq<u32>, full: Seq<Ospfv3LinkNeighbor>, self_id: u32) -> bool {
    &&& increasing(r)
    &&& r.len() == full.len() + 1
    &&& forall|x: u32| r.contains(x) <==> (x == self_id || exists|k: int| 0 <= k < full.len() && #[trigger] full[k].router_id == x)
}

/// The links OSPFv3 interface `i` adds to the Router LSA of router `self_id`, and the routers
/// of its network when this router is its designated router. `neighbors` is the neighbor
/// table; on one interface, router identifiers differ from each other and from this router's.
pub fn ospfv3_interface_links(
    i: &Ospfv3ActiveInterface,
    neighbors: &[Ospfv3LinkNeighbor],
    self_id: u32,
) -> (r: (Vec<Ospfv3RouterLink>, Option<Vec<u32>>))
    requires
        forall|a: int, b: int|
            0 <= a < b < full_v3(neighbors@, i.id).len() ==> (#[trigger] full_v3(neighbors@, i.id)[a]).router_id
                != (#[trigger] full_v3(neighbors@, i.id)[b]).router_id,
        forall|a: int| 0 <= a < full_v3(neighbors@, i.id).len() ==> (#[trigger] full_v3(neighbors@, i.id)[a]).router_id != self_id,
    ensures
        r.0@ == links_v3_spec(*i, full_v3(neighbors@, i.id), self_id),
        match r.1 {
            Some(m) => transit_v3(*i, full_v3(neighbors@, i.id), self_id) && i.dr == Some(self_id)
                && members_v3(m@, full_v3(neighbors@, i.id), self_id),
            None => !(transit_v3(*i, full_v3(neighbors@, i.id), self_id) && i.dr == Some(self_id)),
        },
{
    let ghost ns = neighbors@;
    let ghost pred = |n: Ospfv3LinkNeighbor| n.interface == i.id && n.full;
    let mut full: Vec<Ospfv3LinkNeighbor> = Vec::new();
    let mut k: usize = 0;
    while k < neighbors.len()
        invariant
            k <= ns.len(),
            ns == neighbors@,
            pred == (|n: Ospfv3LinkNeighbor| n.interface == i.id && n.full),
            full@ == ns.take(k as int).filter(pred),
        decreases ns.len() - k,
    {
        let n = neighbors[k];
        proof {
            assert(ns.take(k + 1) =~= ns.take(k as int).push(n));
            ns.take(k as int).lemma_filter_push(n, pred);
        }
        if n.interface == i.id && n.full {
            full.push(n);
        }
        k = k + 1;
    }
    proof {
        assert(ns.take(ns.len() as int) =~= ns);
    }
    let ghost f = full@;
    assert(f == full_v3(neighbors@, i.id));
    let self_dr = match i.dr {
        Some(d) => d == self_id,
        None => false,
    };
    let mut found: Option<u32> = None;
    let mut m: usize = 0;
    while m < full.len()
        invariant_except_break
            found is None,
            forall|q: int| 0 <= q < m ==> Some((#[trigger] f[q]).router_id) != i.dr,
        invariant
            m <= f.len(),
            f == full@,
        ensures
            match found {
                Some(nif) => exists|q: int| first_dr(f, i.dr->Some_0, q) && f[q].interface_id == nif && i.dr is Some,
                None => forall|q: int| 0 <= q < f.len() ==> Some((#[trigger] f[q]).router_id) != i.dr,
            },
        decreases f.len() - m,
    {
        match i.dr {
            Some(d) => {
                if full[m].router_id == d {
                    found = Some(full[m].interface_id);
                    proof {
                        assert(first_dr(f, d, m as int));
                    }
                    break;
                }
            },
            None => {},
        }
        m = m + 1;
    }
    let transit = match i.network {
        OspfNetworkType::Broadcast => i.dr.is_some() && full.len() > 0 && (self_dr || found.is_some()),
        OspfNetworkType::PointToPoint => false,
    };
    proof {
        if found is None && i.dr is Some {
            assert(!exists|q: int| 0 <= q < f.len() && Some(#[trigger] f[q].router_id) == i.dr);
        }
        if found is Some {
            let q = choose|q: int| first_dr(f, i.dr->Some_0, q) && f[q].interface_id == found->Some_0 && i.dr is Some;
            let c = choose|c: int| first_dr(f, i.dr->Some_0, c);
            if c < q {
                assert(f[c].router_id == i.dr->Some_0);
            } else if q < c {
                assert(f[q].router_id == i.dr->Some_0);
            }
            assert(Some(f[q].router_id) == i.dr);
        }
    }
    let mut links: Vec<Ospfv3RouterLink> = Vec::new();
    if transit {
        let d = match i.dr {
            Some(d) => d,
            None => 0,
        };
        let nif = if self_dr {
            i.id
        } else {
            match found {
                Some(x) => x,
                None => 0,
            }
        };
        links.push(Ospfv3RouterLink { kind: Ospfv3LinkKind::Transit, metric: i.cost, interface_id: i.id, neighbor_interface_id: nif, neighbor_router: d });
        proof {
            if !self_dr {
                assert(exists|q: int| first_dr(f, i.dr->Some_0, q));
            }
        }
    }
    let ghost first = links@;
    match i.network {
        OspfNetworkType::PointToPoint => {
            let mut q: usize = 0;
            while q < full.len()
                invariant
                    q <= f.len(),
                    f == full@,
                    links@ == first + f.take(q as int).map_values(|n: Ospfv3LinkNeighbor| Ospfv3RouterLink {
                        kind: Ospfv3LinkKind::PointToPoint,
                        metric: i.cost,
                        interface_id: i.id,
                        neighbor_interface_id: n.interface_id,
                        neighbor_router: n.router_id,
                    }),
                decreases f.len() - q,
            {
                let n = full[q];
                links.push(Ospfv3RouterLink {
                    kind: Ospfv3LinkKind::PointToPoint,
                    metric: i.cost,
                    interface_id: i.id,
                    neighbor_interface_id: n.interface_id,
                    neighbor_router: n.router_id,
                });
                proof {
                    assert(f.take(q + 1) =~= f.take(q as int).push(f[q as int]));
                    assert(links@ =~= first + f.take(q + 1).map_values(|n: Ospfv3LinkNeighbor| Ospfv3RouterLink {
                        kind: Ospfv3LinkKind::PointToPoint,
                        metric: i.cost,
                        interface_id: i.id,
                        neighbor_interface_id: n.interface_id,
                        neighbor_router: n.router_id,
                    }));
                }
                q = q + 1;
            }
            proof {
                assert(f.take(f.len() as int) =~= f);
            }
        },
        OspfNetworkType::Broadcast => {
            assert(links@ =~= first + Seq::<Ospfv3RouterLink>::empty());
        },
    }
    if !(transit && self_dr) {
        return (links, None);
    }
    let mut routers: Vec<u32> = Vec::new();
    routers.push(self_id);
    proof {
        assert(increasing(routers@));
        assert forall|x: u32| routers@.contains(x) <==> (x == self_id || exists|k: int| 0 <= k < 0 && #[trigger] f[k].router_id == x) by {
            if routers@.contains(x) {
                let k = choose|k: int| 0 <= k < routers@.len() && routers@[k] == x;
                assert(routers@[k] == self_id);
            }
            if x == self_id {
                assert(routers@[0] == x);
            }
        }
    }
    let mut q: usize = 0;
    while q < full.len()
        invariant
            q <= f.len(),
            f == full@,
            increasing(routers@),
            routers@.len() == q + 1,
            forall|a: int, b: int| 0 <= a < b < f.len() ==> (#[trigger] f[a]).router_id != (#[trigger] f[b]).router_id,
            forall|a: int| 0 <= a < f.len() ==> (#[trigger] f[a]).router_id != self_id,
            forall|x: u32| routers@.contains(x) <==> (x == self_id || exists|k: int| 0 <= k < q && #[trigger] f[k].router_id == x),
        decreases f.len() - q,
    {
        let x = full[q].router_id;
        proof {
            if routers@.contains(x) {
                if x != self_id {
                    let k = choose|k: int| 0 <= k < q && #[trigger] f[k].router_id == x;
                    assert(f[k].router_id != f[q as int].router_id);
                }
            }
        }
        insert_increasing(&mut routers, x);
        proof {
            assert forall|y: u32| routers@.contains(y) <==> (y == self_id || exists|k: int| 0 <= k < q + 1 && #[trigger] f[k].router_id == y) by {
                if y == x {
                    assert(f[q as int].router_id == y);
                }
                if exists|k: int| 0 <= k < q + 1 && #[trigger] f[k].router_id == y {
                    let k = choose|k: int| 0 <= k < q + 1 && #[trigger] f[k].router_id == y;
                    if k < q {
                        assert(exists|k2: int| 0 <= k2 < q && #[trigger] f[k2].router_id == y);
                    }
                }
            }
        }
        q = q + 1;
    }
    (links, Some(routers))
}

} // verus!
