//! The start of a BGP maintenance round: the speaker picks its AS and router identifier, and
//! its peers follow the configuration. A change of AS or identifier, or a removed process,
//! restarts every session; a peer no longer configured goes; a peer whose AS or update source
//! changed starts over; a newly configured peer is added; and inbound connections on the BGP
//! port from addresses that are not peers are reset.
use crate::bgp::{bgp_wf, refresh_spec, BgpNeighborConfig, BgpRouter, BgpRouterView};
use crate::bgp_peer::{peer_wf, BgpPeerState, BgpPeerView, BgpSessionState, BgpStreamState, BGP_PORT};
use crate::ipv4::Ipv4Addr;
use crate::keyed::{
    has_key, insert_at, key_index, keys_unique, lemma_insert_at_unique, lemma_insert_sorted, lemma_key_index,
    lemma_remove_sorted, lemma_sorted_unique, sorted_keys, sorted_put, value_of,
};
use crate::routing::InterfaceId;
use crate::tcp::TcpSocket;
use vstd::prelude::*;

verus! {

/// A running peer: the AS and update source it was started with, and its transport.
#[derive(Debug)]
pub struct BgpPeer {
    pub remote_as: u32,
    pub update_source: Option<InterfaceId>,
    pub transport: BgpPeerState,
}

/// A running peer as a mathematical value.
pub struct PeerEntryView {
    pub remote_as: u32,
    pub update_source: Option<InterfaceId>,
    pub transport: BgpPeerView,
}

impl View for BgpPeer {
    type V = PeerEntryView;

    open spec fn view(&self) -> PeerEntryView {
        PeerEntryView { remote_as: self.remote_as, update_source: self.update_source, transport: self.transport@ }
    }
}

/// The running peers by address (as its 32 bits), in address order.
#[derive(Debug)]
pub struct BgpPeers {
    pub peers: Vec<(u32, BgpPeer)>,
}

impl View for BgpPeers {
    type V = Seq<(u32, PeerEntryView)>;

    open spec fn view(&self) -> Seq<(u32, PeerEntryView)> {
        self.peers@.map_values(|e: (u32, BgpPeer)| (e.0, e.1@))
    }
}

/// Peers in strictly increasing address order, each well formed.
pub open spec fn peers_wf(ps: Seq<(u32, PeerEntryView)>) -> bool {
    &&& sorted_keys(ps)
    &&& forall|i: int| 0 <= i < ps.len() ==> peer_wf(#[trigger] ps[i].1.transport)
}

/// The sockets of a peer's connections.
pub open spec fn sockets_of(v: BgpPeerView) -> Seq<TcpSocket> {
    v.streams.map_values(|e: BgpStreamState| e.socket)
}

/// The sockets of all peers' connections, peer by peer.
pub open spec fn all_sockets(ps: Seq<(u32, PeerEntryView)>) -> Seq<TcpSocket>
    decreases ps.len(),
{
    if ps.len() == 0 {
        Seq::empty()
    } else {
        all_sockets(ps.drop_last()) + sockets_of(ps.last().1.transport)
    }
}

/// Whether address `a` is a configured peer.
pub open spec fn configured(ns: Seq<(Ipv4Addr, BgpNeighborConfig)>, a: u32) -> bool {
    exists|i: int| 0 <= i < ns.len() && (#[trigger] ns[i]).0.0 == a
}

/// The peers still configured, and the connections of the others to reset.
pub open spec fn drop_unconfigured(
    ps: Seq<(u32, PeerEntryView)>,
    ns: Seq<(Ipv4Addr, BgpNeighborConfig)>,
) -> (Seq<(u32, PeerEntryView)>, Seq<TcpSocket>)
    decreases ps.len(),
{
    if ps.len() == 0 {
        (ps, Seq::empty())
    } else {
        let (kept, aborts) = drop_unconfigured(ps.drop_last(), ns);
        if configured(ns, ps.last().0) {
            (kept.push(ps.last()), aborts)
        } else {
            (kept, aborts + sockets_of(ps.last().1.transport))
        }
    }
}

/// A peer just started: no connections or routes, idle, free to open at `now`.
pub open spec fn fresh_peer(remote_as: u32, update_source: Option<InterfaceId>, now: u64) -> PeerEntryView {
    PeerEntryView {
        remote_as,
        update_source,
        transport: BgpPeerView {
            streams: Seq::empty(),
            selected: None,
            received: Seq::empty(),
            retry_at: now,
            state: BgpSessionState::Idle,
            last_error: None,
        },
    }
}

/// The peers and the connections to reset after going through the configured peers `ns` in
/// order: a new one starts; one whose AS or update source changed starts over, resetting its
/// connections.
pub open spec fn configure_all(
    ps: Seq<(u32, PeerEntryView)>,
    ns: Seq<(Ipv4Addr, BgpNeighborConfig)>,
    now: u64,
) -> (Seq<(u32, PeerEntryView)>, Seq<TcpSocket>)
    decreases ns.len(),
{
    if ns.len() == 0 {
        (ps, Seq::empty())
    } else {
        let (p1, a1) = configure_all(ps, ns.drop_last(), now);
        let k = ns.last().0.0;
        let pol = ns.last().1;
        let started = fresh_peer(pol.remote_as, pol.update_source, now);
        if has_key(p1, k) {
            let e = value_of(p1, k);
            if e.remote_as != pol.remote_as || e.update_source != pol.update_source {
                (sorted_put(p1, k, started), a1 + sockets_of(e.transport))
            } else {
                (p1, a1)
            }
        } else {
            (sorted_put(p1, k, started), a1)
        }
    }
}

/// Inbound connections on the BGP port from addresses that are not peers.
pub open spec fn unwanted(conns: Seq<TcpSocket>, ns: Seq<(Ipv4Addr, BgpNeighborConfig)>) -> Seq<TcpSocket> {
    conns.filter(|s: TcpSocket| s.local_port == BGP_PORT && !configured(ns, s.remote_address.0))
}

/// The speaker, its peers and the connections to reset after the start of a maintenance
/// round: the speaker refreshes its AS and router identifier (`cands` are the addresses of the
/// up interfaces with whether each is a loopback); a restart resets every connection and drops
/// every peer; with a process, a router identifier and the BGP port listened on (`listen`),
/// peers no longer configured go, the configured ones are brought up to date, and unwanted
/// inbound connections among `conns` are reset.
pub open spec fn reconcile_spec(
    rv: BgpRouterView,
    ps: Seq<(u32, PeerEntryView)>,
    cands: Seq<(Ipv4Addr, bool)>,
    conns: Seq<TcpSocket>,
    listen: bool,
    now: u64,
) -> (BgpRouterView, Seq<(u32, PeerEntryView)>, Seq<TcpSocket>) {
    let (rv1, id, restart) = refresh_spec(rv, cands);
    let ps1 = if restart { Seq::empty() } else { ps };
    let a1 = if restart { all_sockets(ps) } else { Seq::empty() };
    match rv1.config {
        Some(c) => if id is Some && listen {
            let (ps2, a2) = drop_unconfigured(ps1, c.neighbors);
            let (ps3, a3) = configure_all(ps2, c.neighbors, now);
            (rv1, ps3, a1 + a2 + a3 + unwanted(conns, c.neighbors))
        } else {
            (rv1, ps1, a1)
        },
        None => (rv1, ps1, a1),
    }
}

/// Append the sockets of a peer's connections to `aborts`.
fn push_sockets(aborts: &mut Vec<TcpSocket>, t: &BgpPeerState)
    ensures
        final(aborts)@ == old(aborts)@ + sockets_of(t@),
{
    let ghost a0 = aborts@;
    let ghost g = |e: BgpStreamState| e.socket;
    let mut j: usize = 0;
    while j < t.streams.len()
        invariant
            j <= t.streams@.len(),
            g == (|e: BgpStreamState| e.socket),
            aborts@ == a0 + t.streams@.take(j as int).map_values(g),
        decreases t.streams@.len() - j,
    {
        proof {
            assert(t.streams@.take(j + 1).map_values(g) =~= t.streams@.take(j as int).map_values(g).push(t.streams@[j as int].socket));
        }
        aborts.push(t.streams[j].socket);
        j = j + 1;
    }
    proof {
        assert(t.streams@.take(t.streams@.len() as int) =~= t.streams@);
    }
}

/// Whether address `a` is a configured peer.
fn is_configured(ns: &Vec<(Ipv4Addr, BgpNeighborConfig)>, a: u32) -> (r: bool)
    ensures
        r == configured(ns@, a),
{
    let mut i: usize = 0;
    while i < ns.len()
        invariant
            i <= ns@.len(),
            forall|j: int| 0 <= j < i ==> (#[trigger] ns@[j]).0.0 != a,
        decreases ns@.len() - i,
    {
        if ns[i].0.0 == a {
            return true;
        }
        i = i + 1;
    }
    false
}

/// A started peer.
fn start_peer(remote_as: u32, update_source: Option<InterfaceId>, now: u64) -> (r: BgpPeer)
    ensures
        r@ == fresh_peer(remote_as, update_source, now),
        peer_wf(r@.transport),
{
    let t = BgpPeerState::new(now);
    proof {
        assert(t@.streams =~= Seq::<BgpStreamState>::empty());
        assert(t@.received =~= fresh_peer(remote_as, update_source, now).transport.received);
    }
    BgpPeer { remote_as, update_source, transport: t }
}

impl BgpPeers {
    /// No peers.
    pub fn new() -> (r: BgpPeers)
        ensures
            r@ == Seq::<(u32, PeerEntryView)>::empty(),
    {
        let r = BgpPeers { peers: Vec::new() };
        assert(r@ =~= Seq::<(u32, PeerEntryView)>::empty());
        r
    }

    /// Where the peer at address `k` is.
    fn find(&self, k: u32) -> (r: Option<usize>)
        requires
            sorted_keys(self@),
        ensures
            match r {
                Some(i) => i < self@.len() && has_key(self@, k) && key_index(self@, k) == i,
                None => !has_key(self@, k),
            },
    {
        proof {
            lemma_sorted_unique(self@);
        }
        let mut i: usize = 0;
        while i < self.peers.len()
            invariant
                i <= self@.len(),
                keys_unique(self@),
                forall|j: int| 0 <= j < i ==> (#[trigger] self@[j]).0 != k,
            decreases self@.len() - i,
        {
            assert(self@[i as int].0 == self.peers@[i as int].0);
            if self.peers[i].0 == k {
                proof {
                    lemma_key_index(self@, i as int);
                }
                return Some(i);
            }
            i = i + 1;
        }
        None
    }

    /// Where a new peer at address `k` goes.
    fn slot(&self, k: u32) -> (r: usize)
        requires
            sorted_keys(self@),
            !has_key(self@, k),
        ensures
            insert_at(self@, k, r as int),
    {
        let mut i: usize = 0;
        while i < self.peers.len() && self.peers[i].0 < k
            invariant
                i <= self@.len(),
                forall|j: int| 0 <= j < i ==> (#[trigger] self@[j]).0 < k,
            decreases self@.len() - i,
        {
            i = i + 1;
        }
        proof {
            let v = self@;
            assert forall|j: int| i <= j < v.len() implies (#[trigger] v[j]).0 > k by {
                assert(v[i as int].0 == self.peers@[i as int].0);
                assert(v[i as int].0 != k);
                if j > i {
                    assert(v[i as int].0 < v[j].0);
                }
            }
        }
        i
    }

    /// Reset every connection and drop every peer.
    fn clear_all(&mut self, aborts: &mut Vec<TcpSocket>)
        ensures
            final(self)@ == Seq::<(u32, PeerEntryView)>::empty(),
            final(aborts)@ == old(aborts)@ + all_sockets(old(self)@),
    {
        let ghost o = self@;
        let ghost a0 = aborts@;
        let mut i: usize = 0;
        while i < self.peers.len()
            invariant
                i <= o.len(),
                self@ == o,
                aborts@ == a0 + all_sockets(o.take(i as int)),
            decreases o.len() - i,
        {
            proof {
                assert(o.take(i + 1).drop_last() =~= o.take(i as int));
                assert(o.take(i + 1).last() == o[i as int]);
                assert(a0 + all_sockets(o.take(i as int)) + sockets_of(o[i as int].1.transport) =~= a0 + (all_sockets(o.take(i as int)) + sockets_of(o[i as int].1.transport)));
            }
            push_sockets(aborts, &self.peers[i].1.transport);
            i = i + 1;
        }
        proof {
            assert(o.take(o.len() as int) =~= o);
        }
        self.peers = Vec::new();
        assert(self@ =~= Seq::<(u32, PeerEntryView)>::empty());
    }

    /// Drop the peers that are no longer configured, resetting their connections.
    fn drop_removed(&mut self, ns: &Vec<(Ipv4Addr, BgpNeighborConfig)>, aborts: &mut Vec<TcpSocket>)
        requires
            peers_wf(old(self)@),
        ensures
            peers_wf(final(self)@),
            final(self)@ == drop_unconfigured(old(self)@, ns@).0,
            final(aborts)@ == old(aborts)@ + drop_unconfigured(old(self)@, ns@).1,
    {
        let ghost o = self@;
        let ghost a0 = aborts@;
        let mut i: usize = 0;
        let mut j: usize = 0;
        let n = self.peers.len();
        assert(o.len() == n);
        while i < self.peers.len()
            invariant
                j <= o.len(),
                self@ == drop_unconfigured(o.take(j as int), ns@).0 + o.skip(j as int),
                i == drop_unconfigured(o.take(j as int), ns@).0.len(),
                aborts@ == a0 + drop_unconfigured(o.take(j as int), ns@).1,
                peers_wf(self@),
                self@.len() == i + (o.len() - j),
                o.len() <= usize::MAX,
            decreases self@.len() - i,
        {
            let ghost before = self@;
            let ghost d = drop_unconfigured(o.take(j as int), ns@);
            proof {
                assert(o.take(j + 1).drop_last() =~= o.take(j as int));
                assert(o.take(j + 1).last() == o[j as int]);
                assert(before[i as int] == o.skip(j as int)[0]);
                assert(o.skip(j as int)[0] == o[j as int]);
            }
            let k = self.peers[i].0;
            assert(k == o[j as int].0);
            if is_configured(ns, k) {
                proof {
                    assert(d.0.push(o[j as int]) + o.skip(j + 1) =~= d.0 + o.skip(j as int));
                }
                i = i + 1;
            } else {
                proof {
                    assert(a0 + d.1 + sockets_of(o[j as int].1.transport) =~= a0 + (d.1 + sockets_of(o[j as int].1.transport)));
                }
                push_sockets(aborts, &self.peers[i].1.transport);
                let ghost raw = self.peers@;
                let _gone = self.peers.remove(i);
                proof {
                    assert(self@ =~= before.remove(i as int));
                    assert(before.remove(i as int) =~= d.0 + o.skip(j + 1));
                    lemma_remove_sorted(before, i as int);
                    assert forall|x: int| 0 <= x < self@.len() implies peer_wf(#[trigger] self@[x].1.transport) by {
                        if x < i {
                            assert(self@[x] == before[x]);
                        } else {
                            assert(self@[x] == before[x + 1]);
                        }
                    }
                }
            }
            j = j + 1;
        }
        proof {
            assert(j == o.len());
            assert(o.take(o.len() as int) =~= o);
            assert(self@ =~= drop_unconfigured(o, ns@).0);
        }
    }
}

impl BgpPeers {
    /// Bring the peers up to date with the configured peers `ns`.
    fn configure(&mut self, ns: &Vec<(Ipv4Addr, BgpNeighborConfig)>, aborts: &mut Vec<TcpSocket>, now: u64)
        requires
            peers_wf(old(self)@),
        ensures
            peers_wf(final(self)@),
            final(self)@ == configure_all(old(self)@, ns@, now).0,
            final(aborts)@ == old(aborts)@ + configure_all(old(self)@, ns@, now).1,
    {
        let ghost o = self@;
        let ghost a0 = aborts@;
        let mut j: usize = 0;
        while j < ns.len()
            invariant
                j <= ns@.len(),
                peers_wf(self@),
                self@ == configure_all(o, ns@.take(j as int), now).0,
                aborts@ == a0 + configure_all(o, ns@.take(j as int), now).1,
            decreases ns@.len() - j,
        {
            let ghost before = self@;
            let ghost a1 = configure_all(o, ns@.take(j as int), now).1;
            proof {
                assert(ns@.take(j + 1).drop_last() =~= ns@.take(j as int));
                assert(ns@.take(j + 1).last() == ns@[j as int]);
                lemma_sorted_unique(before);
            }
            let k = ns[j].0.0;
            let remote_as = ns[j].1.remote_as;
            let update_source = ns[j].1.update_source;
            match self.find(k) {
                Some(i) => {
                    let same_source = match (self.peers[i].1.update_source, update_source) {
                        (Some(a), Some(b)) => a == b,
                        (None, None) => true,
                        _ => false,
                    };
                    if self.peers[i].1.remote_as != remote_as || !same_source {
                        proof {
                            assert(a0 + a1 + sockets_of(before[i as int].1.transport) =~= a0 + (a1 + sockets_of(before[i as int].1.transport)));
                        }
                        push_sockets(aborts, &self.peers[i].1.transport);
                        let p = start_peer(remote_as, update_source, now);
                        self.peers.set(i, (k, p));
                        proof {
                            assert(self@ =~= before.update(i as int, (k, fresh_peer(remote_as, update_source, now))));
                            assert forall|a: int, b: int| 0 <= a < b < self@.len() implies #[trigger] self@[a].0 < #[trigger] self@[b].0 by {
                                assert(self@[a].0 == before[a].0 && self@[b].0 == before[b].0);
                            }
                            assert forall|x: int| 0 <= x < self@.len() implies peer_wf(#[trigger] self@[x].1.transport) by {
                                if x != i {
                                    assert(self@[x] == before[x]);
                                }
                            }
                        }
                    }
                },
                None => {
                    let slot = self.slot(k);
                    let p = start_peer(remote_as, update_source, now);
                    self.peers.insert(slot, (k, p));
                    proof {
                        let e = fresh_peer(remote_as, update_source, now);
                        assert(self@ =~= before.insert(slot as int, (k, e)));
                        lemma_insert_at_unique(before, k, slot as int);
                        lemma_insert_sorted(before, k, e, slot as int);
                        assert forall|x: int| 0 <= x < self@.len() implies peer_wf(#[trigger] self@[x].1.transport) by {
                            if x < slot {
                                assert(self@[x] == before[x]);
                            } else if x > slot {
                                assert(self@[x] == before[x - 1]);
                            }
                        }
                    }
                },
            }
            j = j + 1;
        }
        proof {
            assert(ns@.take(ns@.len() as int) =~= ns@);
        }
    }
}

/// Inbound connections on the BGP port among `connections` from addresses that are not peers.
fn unwanted_connections(connections: &[TcpSocket], ns: &Vec<(Ipv4Addr, BgpNeighborConfig)>) -> (r: Vec<TcpSocket>)
    ensures
        r@ == unwanted(connections@, ns@),
{
    let ghost c = connections@;
    let ghost pred = |s: TcpSocket| s.local_port == BGP_PORT && !configured(ns@, s.remote_address.0);
    let mut r: Vec<TcpSocket> = Vec::new();
    let mut i: usize = 0;
    while i < connections.len()
        invariant
            i <= c.len(),
            c == connections@,
            pred == (|s: TcpSocket| s.local_port == BGP_PORT && !configured(ns@, s.remote_address.0)),
            r@ == c.take(i as int).filter(pred),
        decreases c.len() - i,
    {
        let s = connections[i];
        proof {
            assert(c.take(i + 1) =~= c.take(i as int).push(s));
            c.take(i as int).lemma_filter_push(s, pred);
        }
        if s.local_port == BGP_PORT && !is_configured(ns, s.remote_address.0) {
            r.push(s);
        }
        i = i + 1;
    }
    proof {
        assert(c.take(c.len() as int) =~= c);
    }
    r
}

/// Start a maintenance round: the speaker refreshes its AS and router identifier from the
/// addresses of its up interfaces (`cands`, with whether each is a loopback); a restart resets
/// every connection and drops every peer; and with a process, a router identifier and the BGP
/// port listened on (`listen`), the peers follow the configured ones and inbound connections
/// on the BGP port among `connections` from other addresses are reset. Returns the
/// connections to reset, in that order.
pub fn bgp_reconcile(
    router: &mut BgpRouter,
    peers: &mut BgpPeers,
    cands: &[(Ipv4Addr, bool)],
    connections: &[TcpSocket],
    listen: bool,
    now: u64,
) -> (r: Vec<TcpSocket>)
    requires
        bgp_wf(old(router)@),
        peers_wf(old(peers)@),
    ensures
        bgp_wf(final(router)@),
        peers_wf(final(peers)@),
        (final(router)@, final(peers)@, r@) == reconcile_spec(old(router)@, old(peers)@, cands@, connections@, listen, now),
{
    let ghost ps0 = peers@;
    let (id, restart) = router.refresh(cands);
    let mut aborts: Vec<TcpSocket> = Vec::new();
    if restart {
        peers.clear_all(&mut aborts);
        proof {
            assert(aborts@ =~= all_sockets(ps0));
        }
    } else {
        assert(aborts@ =~= Seq::<TcpSocket>::empty());
    }
    let config = match router.config() {
        None => {
            return aborts;
        },
        Some(c) => c,
    };
    if id.is_none() || !listen {
        return aborts;
    }
    let ghost a1 = aborts@;
    let ghost ps1 = peers@;
    peers.drop_removed(&config.neighbors, &mut aborts);
    let ghost a2 = drop_unconfigured(ps1, config.neighbors@).1;
    let ghost ps2 = peers@;
    peers.configure(&config.neighbors, &mut aborts, now);
    let ghost a3 = configure_all(ps2, config.neighbors@, now).1;
    let mut extra = unwanted_connections(connections, &config.neighbors);
    aborts.append(&mut extra);
    proof {
        assert(aborts@ =~= a1 + a2 + a3 + unwanted(connections@, config.neighbors@));
    }
    aborts
}

} // verus!
