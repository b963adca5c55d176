//! The routes a BGP speaker holds from one peer, and how an UPDATE message changes them:
//! withdrawals, the checks on the path attributes (first AS, local preference), loop
//! detection through the AS path, originator and cluster list, and the route limit.
use crate::ipv4::{Ipv4Addr, Ipv4Network};
use crate::keyed::{has_key, key_index, keys_unique, lemma_key_index, lemma_put_unique, lemma_without_unique, put, without};
use vstd::prelude::*;

verus! {

/// The most routes held from one peer.
pub const BGP_ROUTE_LIMIT: usize = 4096;

/// Path attributes of announced routes: the AS path (first the AS nearest to the receiver),
/// next hop, optional local preference and multi-exit discriminator, and the originator
/// and cluster list that route reflection adds.
#[derive(Debug)]
pub struct BgpAttributes {
    pub as_path: Vec<u32>,
    pub next_hop: Ipv4Addr,
    pub local_preference: Option<u32>,
    pub med: Option<u32>,
    pub originator_id: Option<Ipv4Addr>,
    pub cluster_list: Vec<Ipv4Addr>,
}

/// Path attributes as a mathematical value.
pub struct AttributesView {
    pub as_path: Seq<u32>,
    pub next_hop: Ipv4Addr,
    pub local_preference: Option<u32>,
    pub med: Option<u32>,
    pub originator_id: Option<Ipv4Addr>,
    pub cluster_list: Seq<Ipv4Addr>,
}

impl View for BgpAttributes {
    type V = AttributesView;

    open spec fn view(&self) -> AttributesView {
        AttributesView {
            as_path: self.as_path@,
            next_hop: self.next_hop,
            local_preference: self.local_preference,
            med: self.med,
            originator_id: self.originator_id,
            cluster_list: self.cluster_list@,
        }
    }
}

/// An UPDATE message: withdrawn prefixes, announced prefixes and, when routes are
/// announced, their attributes.
#[derive(Debug)]
pub struct BgpUpdate {
    pub withdrawn: Vec<Ipv4Network>,
    pub announced: Vec<Ipv4Network>,
    pub attributes: Option<BgpAttributes>,
}

/// A NOTIFICATION error: its code and subcode.
#[derive(Debug, Clone, Copy, PartialEq, Eq, Structural)]
pub struct BgpError {
    pub code: u8,
    pub subcode: u8,
}

/// The routes held from one peer, at most one per prefix, in the order first announced.
#[derive(Debug)]
pub struct BgpRoutes {
    routes: Vec<(Ipv4Network, BgpAttributes)>,
}

/// Prefixes as values.
pub open spec fn prefixes_view(s: Seq<Ipv4Network>) -> Seq<(u32, u8)> {
    s.map_values(|p: Ipv4Network| p@)
}

impl View for BgpRoutes {
    type V = Seq<((u32, u8), AttributesView)>;

    closed spec fn view(&self) -> Seq<((u32, u8), AttributesView)> {
        self.routes@.map_values(|e: (Ipv4Network, BgpAttributes)| (e.0@, e.1@))
    }
}

/// The routes after withdrawing each prefix of `ps` in turn.
pub open spec fn withdraw_all(r: Seq<((u32, u8), AttributesView)>, ps: Seq<(u32, u8)>) -> Seq<((u32, u8), AttributesView)>
    decreases ps.len(),
{
    if ps.len() == 0 {
        r
    } else {
        without(withdraw_all(r, ps.drop_last()), ps.last())
    }
}

/// The routes and error after announcing each prefix of `ps` in turn with attributes `a`:
/// a looped announcement withdraws the prefix; a new prefix beyond the limit clears the
/// routes and fails with a cease (6, 1), ignoring the prefixes that follow.
pub open spec fn announce_all(
    r: Seq<((u32, u8), AttributesView)>,
    ps: Seq<(u32, u8)>,
    a: AttributesView,
    looped: bool,
    limit: nat,
) -> (Seq<((u32, u8), AttributesView)>, Option<BgpError>)
    decreases ps.len(),
{
    if ps.len() == 0 {
        (r, None)
    } else {
        let (r2, e) = announce_all(r, ps.drop_last(), a, looped, limit);
        let p = ps.last();
        if e is Some {
            (r2, e)
        } else if looped {
            (without(r2, p), None)
        } else if r2.len() >= limit && !has_key(r2, p) {
            (Seq::empty(), Some(BgpError { code: 6, subcode: 1 }))
        } else {
            (put(r2, p, a), None)
        }
    }
}

/// Whether announced attributes come back to this speaker: its AS is on the path, it is the
/// originator, or its cluster (the router identifier without a cluster identifier) is on the
/// cluster list.
pub open spec fn looped(a: AttributesView, local_as: u32, router_id: Ipv4Addr, cluster_id: Option<Ipv4Addr>) -> bool {
    ||| a.as_path.contains(local_as)
    ||| a.originator_id == Some(router_id)
    ||| a.cluster_list.contains(
        match cluster_id {
            Some(c) => c,
            None => router_id,
        },
    )
}

/// The routes and error after UPDATE `u` from a peer in AS `peer_as`, for a speaker in AS
/// `local_as` with identifier `router_id` and cluster `cluster_id`. Withdrawals apply
/// first. An external peer's path must start with its AS (else error 3, 11), and its local
/// preference is dropped; an internal peer must send a local preference (else error 3, 3).
/// An error clears the routes.
pub open spec fn accept_spec(
    r: Seq<((u32, u8), AttributesView)>,
    withdrawn: Seq<(u32, u8)>,
    announced: Seq<(u32, u8)>,
    attributes: Option<AttributesView>,
    peer_as: u32,
    local_as: u32,
    router_id: Ipv4Addr,
    cluster_id: Option<Ipv4Addr>,
    limit: nat,
) -> (Seq<((u32, u8), AttributesView)>, Option<BgpError>) {
    let r1 = withdraw_all(r, withdrawn);
    match attributes {
        None => (r1, None),
        Some(a) => {
            let external = peer_as != local_as;
            if external && (a.as_path.len() == 0 || a.as_path[0] != peer_as) {
                (Seq::empty(), Some(BgpError { code: 3, subcode: 11 }))
            } else if !external && a.local_preference is None {
                (Seq::empty(), Some(BgpError { code: 3, subcode: 3 }))
            } else {
                let kept = if external {
                    AttributesView { local_preference: None, ..a }
                } else {
                    a
                };
                announce_all(r1, announced, kept, looped(a, local_as, router_id, cluster_id), limit)
            }
        },
    }
}

/// A copy of a list of AS numbers.
fn copy_path(s: &Vec<u32>) -> (r: Vec<u32>)
    ensures
        r@ == s@,
{
    let mut r: Vec<u32> = Vec::new();
    let mut i: usize = 0;
    while i < s.len()
        invariant
            i <= s@.len(),
            r@ == s@.take(i as int),
        decreases s@.len() - i,
    {
        r.push(s[i]);
        i = i + 1;
        assert(r@ =~= s@.take(i as int));
    }
    assert(s@.take(s@.len() as int) =~= s@);
    r
}

/// A copy of a list of addresses.
fn copy_addresses(s: &Vec<Ipv4Addr>) -> (r: Vec<Ipv4Addr>)
    ensures
        r@ == s@,
{
    let mut r: Vec<Ipv4Addr> = Vec::new();
    let mut i: usize = 0;
    while i < s.len()
        invariant
            i <= s@.len(),
            r@ == s@.take(i as int),
        decreases s@.len() - i,
    {
        r.push(s[i]);
        i = i + 1;
        assert(r@ =~= s@.take(i as int));
    }
    assert(s@.take(s@.len() as int) =~= s@);
    r
}

/// Whether `s` holds `x`.
fn holds_as(s: &Vec<u32>, x: u32) -> (r: bool)
    ensures
        r == s@.contains(x),
{
    let mut i: usize = 0;
    while i < s.len()
        invariant
            i <= s@.len(),
            forall|j: int| 0 <= j < i ==> s@[j] != x,
        decreases s@.len() - i,
    {
        if s[i] == x {
            assert(s@[i as int] == x);
            return true;
        }
        i = i + 1;
    }
    false
}

/// Whether `s` holds `x`.
fn holds_address(s: &Vec<Ipv4Addr>, x: Ipv4Addr) -> (r: bool)
    ensures
        r == s@.contains(x),
{
    let mut i: usize = 0;
    while i < s.len()
        invariant
            i <= s@.len(),
            forall|j: int| 0 <= j < i ==> s@[j] != x,
        decreases s@.len() - i,
    {
        if s[i].0 == x.0 {
            assert(s@[i as int] == x);
            return true;
        }
        i = i + 1;
    }
    false
}

impl BgpAttributes {
    /// A copy of the attributes.
    pub fn copy(&self) -> (r: BgpAttributes)
        ensures
            r@ == self@,
    {
        BgpAttributes {
            as_path: copy_path(&self.as_path),
            next_hop: self.next_hop,
            local_preference: self.local_preference,
            med: self.med,
            originator_id: self.originator_id,
            cluster_list: copy_addresses(&self.cluster_list),
        }
    }
}

impl BgpRoutes {
    /// No routes.
    pub fn new() -> (r: BgpRoutes)
        ensures
            r@ == Seq::<((u32, u8), AttributesView)>::empty(),
    {
        let r = BgpRoutes { routes: Vec::new() };
        assert(r@ =~= Seq::<((u32, u8), AttributesView)>::empty());
        r
    }

    /// The routes, in the order first announced.
    pub fn routes(&self) -> (r: &[(Ipv4Network, BgpAttributes)])
        ensures
            r@.map_values(|e: (Ipv4Network, BgpAttributes)| (e.0@, e.1@)) == self@,
    {
        self.routes.as_slice()
    }

    /// Where the route for `prefix` is.
    fn find(&self, prefix: Ipv4Network) -> (r: Option<usize>)
        requires
            keys_unique(self@),
        ensures
            match r {
                Some(i) => i < self@.len() && has_key(self@, prefix@) && key_index(self@, prefix@) == i,
                None => !has_key(self@, prefix@),
            },
    {
        let mut i: usize = 0;
        while i < self.routes.len()
            invariant
                keys_unique(self@),
                i <= self@.len(),
                forall|j: int| 0 <= j < i ==> #[trigger] self@[j].0 != prefix@,
            decreases self@.len() - i,
        {
            let p = self.routes[i].0;
            assert(self@[i as int].0 == p@);
            if p.address().0 == prefix.address().0 && p.prefix_len() == prefix.prefix_len() {
                proof {
                    lemma_key_index(self@, i as int);
                }
                return Some(i);
            }
            i = i + 1;
        }
        None
    }

    /// Drop the route for `prefix`.
    fn withdraw(&mut self, prefix: Ipv4Network)
        requires
            keys_unique(old(self)@),
        ensures
            keys_unique(final(self)@),
            final(self)@ == without(old(self)@, prefix@),
    {
        let ghost before = self@;
        proof {
            lemma_without_unique(before, prefix@);
        }
        match self.find(prefix) {
            Some(i) => {
                let _ = self.routes.remove(i);
                assert(self@ =~= before.remove(i as int));
            },
            None => {},
        }
    }

    /// Store `attributes` for `prefix`, replacing what it held.
    fn store(&mut self, prefix: Ipv4Network, attributes: BgpAttributes)
        requires
            keys_unique(old(self)@),
        ensures
            keys_unique(final(self)@),
            final(self)@ == put(old(self)@, prefix@, attributes@),
    {
        let ghost before = self@;
        let ghost value = attributes@;
        proof {
            lemma_put_unique(before, prefix@, value);
        }
        match self.find(prefix) {
            Some(i) => {
                self.routes.set(i, (prefix, attributes));
                assert(self@ =~= before.update(i as int, (prefix@, value)));
            },
            None => {
                self.routes.push((prefix, attributes));
                assert(self@ =~= before.push((prefix@, value)));
            },
        }
    }

    /// Apply UPDATE `update` from a peer in AS `peer_as`, as a speaker in AS `local_as` with
    /// identifier `router_id` and cluster `cluster_id`. Returns the error to notify the peer
    /// of; an error clears the routes.
    pub fn accept_update(
        &mut self,
        update: &BgpUpdate,
        peer_as: u32,
        local_as: u32,
        router_id: Ipv4Addr,
        cluster_id: Option<Ipv4Addr>,
    ) -> (r: Option<BgpError>)
        requires
            keys_unique(old(self)@),
        ensures
            keys_unique(final(self)@),
            (final(self)@, r) == accept_spec(
                old(self)@,
                prefixes_view(update.withdrawn@),
                prefixes_view(update.announced@),
                match &update.attributes {
                    Some(a) => Some(a@),
                    None => None,
                },
                peer_as,
                local_as,
                router_id,
                cluster_id,
                BGP_ROUTE_LIMIT as nat,
            ),
    {
        let ghost r0 = self@;
        let ghost wd = prefixes_view(update.withdrawn@);
        let mut i: usize = 0;
        while i < update.withdrawn.len()
            invariant
                wd == prefixes_view(update.withdrawn@),
                i <= wd.len(),
                keys_unique(self@),
                self@ == withdraw_all(r0, wd.take(i as int)),
            decreases wd.len() - i,
        {
            proof {
                assert(wd.take(i + 1).drop_last() =~= wd.take(i as int));
                assert(wd.take(i + 1).last() == update.withdrawn@[i as int]@);
            }
            self.withdraw(update.withdrawn[i]);
            i = i + 1;
        }
        proof {
            assert(wd.take(wd.len() as int) =~= wd);
        }
        let attributes = match &update.attributes {
            None => {
                return None;
            },
            Some(a) => a,
        };
        let external = peer_as != local_as;
        if external && (attributes.as_path.len() == 0 || attributes.as_path[0] != peer_as) {
            self.routes = Vec::new();
            assert(self@ =~= Seq::<((u32, u8), AttributesView)>::empty());
            return Some(BgpError { code: 3, subcode: 11 });
        }
        if !external && attributes.local_preference.is_none() {
            self.routes = Vec::new();
            assert(self@ =~= Seq::<((u32, u8), AttributesView)>::empty());
            return Some(BgpError { code: 3, subcode: 3 });
        }
        let cluster = match cluster_id {
            Some(c) => c,
            None => router_id,
        };
        let loops = holds_as(&attributes.as_path, local_as) || match attributes.originator_id {
            Some(o) => o.0 == router_id.0,
            None => false,
        } || holds_address(&attributes.cluster_list, cluster);
        proof {
            assert(loops == looped(attributes@, local_as, router_id, cluster_id));
        }
        let mut kept = attributes.copy();
        if external {
            kept.local_preference = None;
        }
        let ghost a = kept@;
        let ghost r1 = self@;
        let ghost ann = prefixes_view(update.announced@);
        let mut k: usize = 0;
        while k < update.announced.len()
            invariant
                ann == prefixes_view(update.announced@),
                wd == prefixes_view(update.withdrawn@),
                r0 == old(self)@,
                a == kept@,
                k <= ann.len(),
                keys_unique(self@),
                (self@, None::<BgpError>) == announce_all(r1, ann.take(k as int), a, loops, BGP_ROUTE_LIMIT as nat),
                announce_all(r1, ann, a, loops, BGP_ROUTE_LIMIT as nat) == accept_spec(
                    r0,
                    wd,
                    ann,
                    match &update.attributes {
                        Some(x) => Some(x@),
                        None => None,
                    },
                    peer_as,
                    local_as,
                    router_id,
                    cluster_id,
                    BGP_ROUTE_LIMIT as nat,
                ),
            decreases ann.len() - k,
        {
            let p = update.announced[k];
            proof {
                assert(ann.take(k + 1).drop_last() =~= ann.take(k as int));
                assert(ann.take(k + 1).last() == p@);
            }
            if loops {
                self.withdraw(p);
            } else {
                let found = self.find(p);
                if found.is_none() && self.routes.len() >= BGP_ROUTE_LIMIT {
                    self.routes = Vec::new();
                    proof {
                        assert(self@ =~= Seq::<((u32, u8), AttributesView)>::empty());
                        assert(announce_all(r1, ann.take(k + 1), a, loops, BGP_ROUTE_LIMIT as nat) == (
                            Seq::<((u32, u8), AttributesView)>::empty(),
                            Some(BgpError { code: 6, subcode: 1 }),
                        ));
                        lemma_announce_stops(r1, ann, k as int + 1, a, loops, BGP_ROUTE_LIMIT as nat);
                    }
                    return Some(BgpError { code: 6, subcode: 1 });
                }
                self.store(p, kept.copy());
            }
            k = k + 1;
        }
        proof {
            assert(ann.take(ann.len() as int) =~= ann);
        }
        None
    }
}

/// Once an announcement fails, the prefixes that follow change nothing.
proof fn lemma_announce_stops(
    r: Seq<((u32, u8), AttributesView)>,
    ps: Seq<(u32, u8)>,
    n: int,
    a: AttributesView,
    looped: bool,
    limit: nat,
)
    requires
        0 < n <= ps.len(),
        announce_all(r, ps.take(n), a, looped, limit).1 is Some,
    ensures
        announce_all(r, ps, a, looped, limit) == announce_all(r, ps.take(n), a, looped, limit),
    decreases ps.len() - n,
{
    if n < ps.len() {
        assert(ps.take(n + 1).drop_last() =~= ps.take(n));
        assert(announce_all(r, ps.take(n + 1), a, looped, limit) == announce_all(r, ps.take(n), a, looped, limit));
        lemma_announce_stops(r, ps, n + 1, a, looped, limit);
    } else {
        assert(ps.take(n) =~= ps);
    }
}

/// Withdrawing never adds routes.
proof fn lemma_withdraw_len(r: Seq<((u32, u8), AttributesView)>, ps: Seq<(u32, u8)>)
    ensures
        withdraw_all(r, ps).len() <= r.len(),
    decreases ps.len(),
{
    if ps.len() > 0 {
        lemma_withdraw_len(r, ps.drop_last());
    }
}

/// Announcing keeps routes within the limit.
proof fn lemma_announce_len(
    r: Seq<((u32, u8), AttributesView)>,
    ps: Seq<(u32, u8)>,
    a: AttributesView,
    looped: bool,
    limit: nat,
)
    requires
        r.len() <= limit,
    ensures
        announce_all(r, ps, a, looped, limit).0.len() <= limit,
    decreases ps.len(),
{
    if ps.len() > 0 {
        lemma_announce_len(r, ps.drop_last(), a, looped, limit);
    }
}

/// The route limit: an UPDATE never takes the routes held from a peer beyond the limit
/// when they were within it.
pub proof fn lemma_route_limit(
    r: Seq<((u32, u8), AttributesView)>,
    withdrawn: Seq<(u32, u8)>,
    announced: Seq<(u32, u8)>,
    attributes: Option<AttributesView>,
    peer_as: u32,
    local_as: u32,
    router_id: Ipv4Addr,
    cluster_id: Option<Ipv4Addr>,
    limit: nat,
)
    requires
        r.len() <= limit,
    ensures
        accept_spec(r, withdrawn, announced, attributes, peer_as, local_as, router_id, cluster_id, limit).0.len() <= limit,
{
    lemma_withdraw_len(r, withdrawn);
    let r1 = withdraw_all(r, withdrawn);
    if let Some(a) = attributes {
        let kept = if peer_as != local_as {
            AttributesView { local_preference: None, ..a }
        } else {
            a
        };
        lemma_announce_len(r1, announced, kept, looped(a, local_as, router_id, cluster_id), limit);
    }
}

/// A best path: its attributes, the peer it was learned from (none when this speaker
/// originates it), whether that peer is external, and that peer's router identifier.
#[derive(Debug)]
pub struct BgpPath {
    pub attributes: BgpAttributes,
    pub learned_from: Option<Ipv4Addr>,
    pub external: bool,
    pub peer_router_id: Ipv4Addr,
}

/// The peer a path is exported to: its address, AS, router identifier once known, and
/// whether it is a route-reflector client and wants this speaker as next hop.
#[derive(Debug, Clone, Copy)]
pub struct ExportPeer {
    pub address: Ipv4Addr,
    pub remote_as: u32,
    pub router_id: Option<Ipv4Addr>,
    pub route_reflector_client: bool,
    pub next_hop_self: bool,
    pub local_address: Ipv4Addr,
}

/// The attributes path `p` is exported with to `peer` before outbound policy, or none when
/// it is not exported. A path is never sent back to the peer it came from. An internal path
/// goes to another internal peer only by reflection, which needs a client at one end; a
/// reflected path keeps or gains its originator, gains this speaker's cluster at the front
/// of the cluster list, and is not sent to its originator. An external peer gets no
/// originator, cluster list or local preference, nor the discriminator of a learned path;
/// an internal peer gets local preference 100 when there is none. The next hop becomes this
/// speaker's address toward an external peer, for a locally originated path, and on request
/// of the peer for a path not reflected. `source_client` tells whether the path was learned
/// from a route-reflector client.
pub open spec fn export_spec(
    p: (AttributesView, Option<Ipv4Addr>, bool, Ipv4Addr),
    peer: ExportPeer,
    local_as: u32,
    router_id: Ipv4Addr,
    cluster_id: Option<Ipv4Addr>,
    source_client: bool,
) -> Option<AttributesView> {
    let (a, learned_from, from_external, from_id) = p;
    let external = peer.remote_as != local_as;
    let reflecting = !external && learned_from is Some && !from_external;
    if learned_from == Some(peer.address) {
        None
    } else if reflecting && !source_client && !peer.route_reflector_client {
        None
    } else if reflecting && a.originator_id == peer.router_id {
        None
    } else {
        let a1 = if reflecting {
            AttributesView {
                originator_id: match a.originator_id {
                    Some(o) => Some(o),
                    None => Some(from_id),
                },
                cluster_list: seq![
                    match cluster_id {
                        Some(c) => c,
                        None => router_id,
                    },
                ] + a.cluster_list,
                ..a
            }
        } else {
            a
        };
        let a2 = if external {
            AttributesView {
                originator_id: None,
                cluster_list: Seq::empty(),
                med: if learned_from is Some {
                    None
                } else {
                    a1.med
                },
                ..a1
            }
        } else {
            AttributesView {
                local_preference: Some(
                    match a1.local_preference {
                        Some(l) => l,
                        None => 100,
                    },
                ),
                ..a1
            }
        };
        if external || (peer.next_hop_self && !reflecting) || learned_from is None {
            Some(AttributesView { next_hop: peer.local_address, ..a2 })
        } else {
            Some(a2)
        }
    }
}

/// The next hop a path is exported with. Toward an external peer, for a path this speaker
/// originates, and toward a peer that asked for next-hop-self when the path is not being
/// reflected (it is not an internal path sent on to an internal peer), the next hop is the
/// session's local address; otherwise, toward an internal peer, the path's own next hop is
/// kept. A path that is not reflected is exported to every peer but the one it came from.
pub proof fn lemma_export_next_hop(
    p: (AttributesView, Option<Ipv4Addr>, bool, Ipv4Addr),
    peer: ExportPeer,
    local_as: u32,
    router_id: Ipv4Addr,
    cluster_id: Option<Ipv4Addr>,
    source_client: bool,
)
    ensures
        ({
            let internal_peer = peer.remote_as == local_as;
            let reflected = internal_peer && p.1 is Some && !p.2;
            let r = export_spec(p, peer, local_as, router_id, cluster_id, source_client);
            &&& (!reflected && p.1 != Some(peer.address) ==> r is Some)
            &&& (r matches Some(a) ==> {
                &&& (!internal_peer ==> a.next_hop == peer.local_address)
                &&& (p.1 is None ==> a.next_hop == peer.local_address)
                &&& (peer.next_hop_self && !reflected ==> a.next_hop == peer.local_address)
                &&& (internal_peer && p.1 is Some && (reflected || !peer.next_hop_self) ==> a.next_hop == p.0.next_hop)
            })
        }),
{
}

/// What export does to the other attributes. The AS path is untouched (this speaker's AS is
/// put in front later, by outbound processing). A path is never exported back to the peer it
/// came from. An external peer gets no originator and no cluster list, and the discriminator
/// only of a path this speaker originates; an internal peer gets the path's local preference,
/// or 100 when it has none. A reflected path goes out only when a route-reflector client is at
/// one end, never to the originator it names, keeps its originator or takes the router identifier of
/// the peer it came from, and carries the cluster (the configured one, else this speaker's
/// router identifier) in front of its cluster list.
pub proof fn lemma_export_attributes(
    p: (AttributesView, Option<Ipv4Addr>, bool, Ipv4Addr),
    peer: ExportPeer,
    local_as: u32,
    router_id: Ipv4Addr,
    cluster_id: Option<Ipv4Addr>,
    source_client: bool,
)
    ensures
        ({
            let internal_peer = peer.remote_as == local_as;
            let reflected = internal_peer && p.1 is Some && !p.2;
            let r = export_spec(p, peer, local_as, router_id, cluster_id, source_client);
            &&& (p.1 == Some(peer.address) ==> r is None)
            &&& (reflected && !source_client && !peer.route_reflector_client ==> r is None)
            &&& (reflected && p.0.originator_id == peer.router_id ==> r is None)
            &&& (r matches Some(a) ==> {
                &&& a.as_path == p.0.as_path
                &&& (!internal_peer ==> a.originator_id is None && a.cluster_list.len() == 0 && a.med == (if p.1 is None {
                    p.0.med
                } else {
                    None
                }))
                &&& (internal_peer ==> a.med == p.0.med && a.local_preference == Some(
                    match p.0.local_preference {
                        Some(l) => l,
                        None => 100u32,
                    },
                ))
                &&& (reflected ==> {
                    &&& (source_client || peer.route_reflector_client)
                    &&& a.originator_id == Some(
                        match p.0.originator_id {
                            Some(o) => o,
                            None => p.3,
                        },
                    )
                    &&& a.cluster_list.len() == p.0.cluster_list.len() + 1
                    &&& a.cluster_list[0] == (match cluster_id {
                        Some(c) => c,
                        None => router_id,
                    })
                    &&& a.cluster_list.drop_first() == p.0.cluster_list
                })
                &&& (internal_peer && !reflected ==> a.originator_id == p.0.originator_id && a.cluster_list
                    == p.0.cluster_list)
            })
        }),
{
    let internal_peer = peer.remote_as == local_as;
    let reflected = internal_peer && p.1 is Some && !p.2;
    let r = export_spec(p, peer, local_as, router_id, cluster_id, source_client);
    if r is Some && reflected {
        let c = match cluster_id {
            Some(c) => c,
            None => router_id,
        };
        assert((seq![c] + p.0.cluster_list).drop_first() =~= p.0.cluster_list);
    }
}

/// Attributes toward an external peer after outbound policy: none when the path already
/// holds the peer's AS; else this speaker's AS is put in front and local preference dropped.
pub open spec fn external_spec(a: AttributesView, peer_as: u32, local_as: u32) -> Option<AttributesView> {
    if a.as_path.contains(peer_as) {
        None
    } else {
        Some(AttributesView { as_path: seq![local_as] + a.as_path, local_preference: None, ..a })
    }
}

impl BgpPath {
    /// The path as a value.
    pub open spec fn spec_value(&self) -> (AttributesView, Option<Ipv4Addr>, bool, Ipv4Addr) {
        (self.attributes@, self.learned_from, self.external, self.peer_router_id)
    }
}

fn same_address_option(a: Option<Ipv4Addr>, b: Option<Ipv4Addr>) -> (r: bool)
    ensures
        r == (a == b),
{
    match (a, b) {
        (Some(x), Some(y)) => x.0 == y.0,
        (None, None) => true,
        _ => false,
    }
}

/// The attributes best path `path` is exported with to `peer` before outbound policy.
pub fn bgp_export(
    path: &BgpPath,
    peer: ExportPeer,
    local_as: u32,
    router_id: Ipv4Addr,
    cluster_id: Option<Ipv4Addr>,
    source_client: bool,
) -> (r: Option<BgpAttributes>)
    ensures
        match r {
            Some(a) => export_spec(path.spec_value(), peer, local_as, router_id, cluster_id, source_client) == Some(a@),
            None => export_spec(path.spec_value(), peer, local_as, router_id, cluster_id, source_client) is None,
        },
{
    let external = peer.remote_as != local_as;
    let reflecting = !external && path.learned_from.is_some() && !path.external;
    if same_address_option(path.learned_from, Some(peer.address)) {
        return None;
    }
    if reflecting && !source_client && !peer.route_reflector_client {
        return None;
    }
    if reflecting && same_address_option(path.attributes.originator_id, peer.router_id) {
        return None;
    }
    let mut a = path.attributes.copy();
    if reflecting {
        if a.originator_id.is_none() {
            a.originator_id = Some(path.peer_router_id);
        }
        let cluster = match cluster_id {
            Some(c) => c,
            None => router_id,
        };
        let mut list: Vec<Ipv4Addr> = vec![cluster];
        let mut i: usize = 0;
        while i < path.attributes.cluster_list.len()
            invariant
                i <= path.attributes.cluster_list@.len(),
                list@ == seq![cluster] + path.attributes.cluster_list@.take(i as int),
            decreases path.attributes.cluster_list@.len() - i,
        {
            list.push(path.attributes.cluster_list[i]);
            i = i + 1;
            assert(list@ =~= seq![cluster] + path.attributes.cluster_list@.take(i as int));
        }
        assert(path.attributes.cluster_list@.take(i as int) =~= path.attributes.cluster_list@);
        a.cluster_list = list;
    }
    if external {
        a.originator_id = None;
        a.cluster_list = Vec::new();
        if path.learned_from.is_some() {
            a.med = None;
        }
    } else {
        a.local_preference = Some(
            match a.local_preference {
                Some(l) => l,
                None => 100,
            },
        );
    }
    if external || (peer.next_hop_self && !reflecting) || path.learned_from.is_none() {
        a.next_hop = peer.local_address;
    }
    proof {
        let want = export_spec(path.spec_value(), peer, local_as, router_id, cluster_id, source_client);
        assert(a@.cluster_list =~= want->Some_0.cluster_list);
        assert(a@ == want->Some_0);
    }
    Some(a)
}

/// Attributes toward an external peer after outbound policy.
pub fn bgp_external_attributes(a: BgpAttributes, peer_as: u32, local_as: u32) -> (r: Option<BgpAttributes>)
    ensures
        match r {
            Some(x) => external_spec(a@, peer_as, local_as) == Some(x@),
            None => external_spec(a@, peer_as, local_as) is None,
        },
{
    if holds_as(&a.as_path, peer_as) {
        return None;
    }
    let mut path: Vec<u32> = vec![local_as];
    let mut i: usize = 0;
    while i < a.as_path.len()
        invariant
            i <= a.as_path@.len(),
            path@ == seq![local_as] + a.as_path@.take(i as int),
        decreases a.as_path@.len() - i,
    {
        path.push(a.as_path[i]);
        i = i + 1;
        assert(path@ =~= seq![local_as] + a.as_path@.take(i as int));
    }
    assert(a.as_path@.take(i as int) =~= a.as_path@);
    let r = BgpAttributes { as_path: path, local_preference: None, ..a };
    assert(r@ == AttributesView { as_path: seq![local_as] + a@.as_path, local_preference: None, ..a@ });
    Some(r)
}

/// Route reflection cannot loop through a cluster: a path this speaker reflects to an
/// internal peer carries its cluster, so any speaker of the same cluster that receives it
/// back treats it as looped.
pub proof fn lemma_reflected_paths_do_not_return(
    p: (AttributesView, Option<Ipv4Addr>, bool, Ipv4Addr),
    peer: ExportPeer,
    local_as: u32,
    router_id: Ipv4Addr,
    cluster_id: Option<Ipv4Addr>,
    source_client: bool,
    receiver_as: u32,
    receiver_id: Ipv4Addr,
)
    requires
        peer.remote_as == local_as,
        p.1 is Some,
        !p.2,
        export_spec(p, peer, local_as, router_id, cluster_id, source_client) is Some,
        cluster_id is Some || receiver_id == router_id,
    ensures
        looped(
            export_spec(p, peer, local_as, router_id, cluster_id, source_client)->Some_0,
            receiver_as,
            receiver_id,
            cluster_id,
        ),
{
    let a = export_spec(p, peer, local_as, router_id, cluster_id, source_client)->Some_0;
    let c = match cluster_id {
        Some(c) => c,
        None => router_id,
    };
    assert(a.cluster_list[0] == c);
}

} // verus!
