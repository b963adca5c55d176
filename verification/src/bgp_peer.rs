//! The transport of one BGP peer: which TCP connections carry its sessions, when to retry an
//! active open and from which local port, which session survives a connection collision,
//! which session the routes are taken from, and what its UPDATE messages do to them.
//!
//! A step runs in two halves. `bgp_peer_transport` drops connections that have gone, takes
//! over inbound ones and opens a new one when the retry timer allows. The session machines
//! then run on the established connections; `bgp_peer_sessions` takes what each machine
//! reported, resolves collisions, selects the session and applies its UPDATE messages.
use crate::bgp::{bgp_collision_winner, collision_spec};
use crate::bgp_routes::{
    accept_spec, lemma_route_limit, prefixes_view, AttributesView, BgpError, BgpRoutes, BgpUpdate,
    BGP_ROUTE_LIMIT,
};
use crate::ipv4::Ipv4Addr;
use crate::keyed::{has_key, keys_unique, lemma_key_index, value_of};
use crate::tcp::{TcpSocket, TcpState};
use vstd::prelude::*;

verus! {

/// How long a peer without connections waits before the next active open, in microseconds.
pub const BGP_RETRY_US: u64 = 30_000_000;

/// How long a failing session keeps its connection to send its last messages, in microseconds.
pub const BGP_CLOSE_DELAY_US: u64 = 5_000_000;

/// How many local ports an active open tries.
pub const BGP_PORT_TRIES: u32 = 16384;

/// The TCP port of BGP.
pub const BGP_PORT: u16 = 179;

/// The states of a BGP session.
#[derive(Debug, Clone, Copy, PartialEq, Eq, Structural)]
pub enum BgpSessionState {
    Idle,
    Connect,
    Active,
    OpenSent,
    OpenConfirm,
    Established,
}

/// One connection of a peer and its session: whether the session has started on an
/// established connection, when the connection is to close (none while it stays), the router
/// identifier the peer sent, and the session's last error.
#[derive(Debug, Clone, Copy, PartialEq, Eq)]
pub struct BgpStreamState {
    pub socket: TcpSocket,
    pub session: BgpSessionState,
    pub started: bool,
    pub closing: Option<u64>,
    pub peer_router_id: Option<Ipv4Addr>,
    pub error: Option<BgpError>,
}

/// What a session machine reported after running on its connection: its state, the router
/// identifier its peer sent, whether it asks to close the connection (after an error or a
/// NOTIFICATION), and its last error.
#[derive(Debug, Clone, Copy, PartialEq, Eq)]
pub struct BgpSessionEvent {
    pub session: BgpSessionState,
    pub peer_router_id: Option<Ipv4Addr>,
    pub close: bool,
    pub error: Option<BgpError>,
}

/// What the TCP layer is to do for a peer: reset an unwanted connection, take over an inbound
/// one (with no idle timeout), or open a new one (with no idle timeout).
#[derive(Debug, Clone, Copy, PartialEq, Eq)]
pub enum BgpPeerAction {
    Abort(TcpSocket),
    Accept(TcpSocket),
    Connect(TcpSocket),
}

/// The transport state of one peer: its connections in socket order, the selected session,
/// the routes received on it, when an active open may next be tried, the peer's session
/// state and its last error.
#[derive(Debug)]
pub struct BgpPeerState {
    pub streams: Vec<BgpStreamState>,
    pub selected: Option<TcpSocket>,
    pub received: BgpRoutes,
    pub retry_at: u64,
    pub state: BgpSessionState,
    pub last_error: Option<BgpError>,
}

/// A peer's transport state as a mathematical value.
pub struct BgpPeerView {
    pub streams: Seq<BgpStreamState>,
    pub selected: Option<TcpSocket>,
    pub received: Seq<((u32, u8), AttributesView)>,
    pub retry_at: u64,
    pub state: BgpSessionState,
    pub last_error: Option<BgpError>,
}

impl View for BgpPeerState {
    type V = BgpPeerView;

    open spec fn view(&self) -> BgpPeerView {
        BgpPeerView {
            streams: self.streams@,
            selected: self.selected,
            received: self.received@,
            retry_at: self.retry_at,
            state: self.state,
            last_error: self.last_error,
        }
    }
}

/// Whether socket `a` comes before socket `b`: by local address, local port, remote address,
/// then remote port.
pub open spec fn socket_before(a: TcpSocket, b: TcpSocket) -> bool {
    ||| a.local_address.0 < b.local_address.0
    ||| a.local_address.0 == b.local_address.0 && a.local_port < b.local_port
    ||| a.local_address.0 == b.local_address.0 && a.local_port == b.local_port
        && a.remote_address.0 < b.remote_address.0
    ||| a.local_address.0 == b.local_address.0 && a.local_port == b.local_port
        && a.remote_address.0 == b.remote_address.0 && a.remote_port < b.remote_port
}

/// Connections in strictly increasing socket order.
pub open spec fn streams_sorted(s: Seq<BgpStreamState>) -> bool {
    forall|i: int, j: int| 0 <= i < j < s.len() ==> socket_before(#[trigger] s[i].socket, #[trigger] s[j].socket)
}

/// A peer's state is well formed: at most two connections, in socket order, and at most one
/// route per prefix, within the route limit.
pub open spec fn peer_wf(v: BgpPeerView) -> bool {
    &&& v.streams.len() <= 2
    &&& streams_sorted(v.streams)
    &&& keys_unique(v.received)
    &&& v.received.len() <= BGP_ROUTE_LIMIT
}

/// The selected session is an established connection that is not closing, and without one no
/// routes are held.
pub open spec fn selection_ok(v: BgpPeerView) -> bool {
    match v.selected {
        Some(k) => exists|i: int| 0 <= i < v.streams.len() && #[trigger] v.streams[i].socket == k && usable(v.streams[i]),
        None => v.received.len() == 0,
    }
}

/// `now` plus `d`, saturating.
pub open spec fn later(now: u64, d: u64) -> u64 {
    if now + d > u64::MAX {
        u64::MAX
    } else {
        (now + d) as u64
    }
}

/// The state of the TCP connection on socket `s`, if there is one.
pub open spec fn conn_state(c: Seq<(TcpSocket, TcpState)>, s: TcpSocket) -> Option<TcpState> {
    if has_key(c, s) {
        Some(value_of(c, s))
    } else {
        None
    }
}

/// Whether the connection of socket `s` has gone or is closing on its own.
pub open spec fn gone(c: Seq<(TcpSocket, TcpState)>, s: TcpSocket) -> bool {
    match conn_state(c, s) {
        None => true,
        Some(t) => t is Closed || t is TimeWait || t is LastAck || t is FinWait,
    }
}

/// Whether the peer has a connection on socket `k`.
pub open spec fn has_stream(s: Seq<BgpStreamState>, k: TcpSocket) -> bool {
    exists|i: int| 0 <= i < s.len() && #[trigger] s[i].socket == k
}

/// Whether a connection carries an established session and is not closing.
pub open spec fn usable(e: BgpStreamState) -> bool {
    e.closing is None && e.session is Established
}

/// The connections that stay.
pub open spec fn staying(s: Seq<BgpStreamState>, c: Seq<(TcpSocket, TcpState)>) -> Seq<BgpStreamState> {
    s.filter(|e: BgpStreamState| !gone(c, e.socket))
}

/// The peer after dropping the connections that have gone: losing the selected one clears the
/// routes, and losing any restarts the retry timer.
pub open spec fn drop_stale_spec(v: BgpPeerView, c: Seq<(TcpSocket, TcpState)>, now: u64) -> BgpPeerView {
    let kept = staying(v.streams, c);
    if kept.len() == v.streams.len() {
        v
    } else {
        let lost = match v.selected {
            Some(k) => has_stream(v.streams, k) && gone(c, k),
            None => false,
        };
        BgpPeerView {
            streams: kept,
            selected: if lost { None } else { v.selected },
            received: if lost { Seq::empty() } else { v.received },
            retry_at: later(now, BGP_RETRY_US),
            state: BgpSessionState::Active,
            last_error: v.last_error,
        }
    }
}


/// Whether a TCP connection is an inbound BGP connection from the peer at `address` that the
/// peer may take over.
pub open spec fn wanted_inbound(s: TcpSocket, t: TcpState, address: Ipv4Addr) -> bool {
    &&& s.remote_address == address
    &&& s.local_port == BGP_PORT
    &&& (t is SynReceived || t is Established || t is CloseWait)
}

/// A new connection on socket `s` whose session machine starts in state `f`.
pub open spec fn fresh_stream(s: TcpSocket, f: BgpSessionState) -> BgpStreamState {
    BgpStreamState { socket: s, session: f, started: false, closing: None, peer_router_id: None, error: None }
}

/// Connections `s` (at most one) with `e` added in socket order.
pub open spec fn insert_stream(s: Seq<BgpStreamState>, e: BgpStreamState) -> Seq<BgpStreamState> {
    if s.len() == 1 && socket_before(e.socket, s[0].socket) {
        seq![e, s[0]]
    } else {
        s.push(e)
    }
}

/// The connections and actions after going through the TCP connections `c` in order: an
/// inbound connection from the peer that it does not hold yet is reset when it already holds
/// two, else taken over when a session machine can be made (`fresh` gives its first state).
pub open spec fn accept_all(
    s: Seq<BgpStreamState>,
    c: Seq<(TcpSocket, TcpState)>,
    address: Ipv4Addr,
    fresh: Option<BgpSessionState>,
) -> (Seq<BgpStreamState>, Seq<BgpPeerAction>)
    decreases c.len(),
{
    if c.len() == 0 {
        (s, Seq::empty())
    } else {
        let (s1, a1) = accept_all(s, c.drop_last(), address, fresh);
        let k = c.last().0;
        if !wanted_inbound(k, c.last().1, address) || has_stream(s1, k) {
            (s1, a1)
        } else if s1.len() >= 2 {
            (s1, a1.push(BgpPeerAction::Abort(k)))
        } else {
            match fresh {
                None => (s1, a1),
                Some(f) => (insert_stream(s1, fresh_stream(k, f)), a1.push(BgpPeerAction::Accept(k))),
            }
        }
    }
}

/// The local port tried after `p`: the next one, wrapping within 49152 to 65535.
pub open spec fn next_port_after(p: u16) -> u16 {
    if p < 49152 || p == 65535 {
        49152
    } else {
        (p + 1) as u16
    }
}

/// The socket of an active open from `local` port `port` to the BGP port of `address`.
pub open spec fn client_socket(local: Ipv4Addr, port: u16, address: Ipv4Addr) -> TcpSocket {
    TcpSocket { local_address: local, local_port: port, remote_address: address, remote_port: BGP_PORT }
}

/// The last port tried and the free socket found, trying at most `tries` ports after `port`.
pub open spec fn port_search(
    c: Seq<(TcpSocket, TcpState)>,
    local: Ipv4Addr,
    address: Ipv4Addr,
    port: u16,
    tries: nat,
) -> (u16, Option<TcpSocket>)
    decreases tries,
{
    if tries == 0 {
        (port, None)
    } else {
        let p = next_port_after(port);
        if !has_key(c, client_socket(local, p, address)) {
            (p, Some(client_socket(local, p, address)))
        } else {
            port_search(c, local, address, p, (tries - 1) as nat)
        }
    }
}

/// The peer, the port counter and the socket opened after an active open: only without
/// connections and once the retry time has come. The retry timer restarts; with a local
/// address, a free port is searched, and when one is found, a session machine can be made and
/// the TCP layer can open the connection, the peer holds it and is connecting.
pub open spec fn open_spec(
    v: BgpPeerView,
    c: Seq<(TcpSocket, TcpState)>,
    address: Ipv4Addr,
    local: Option<Ipv4Addr>,
    can_connect: bool,
    fresh: Option<BgpSessionState>,
    port: u16,
    now: u64,
) -> (BgpPeerView, u16, Option<TcpSocket>) {
    if !(v.streams.len() == 0 && v.retry_at <= now) {
        (v, port, None)
    } else {
        let v1 = BgpPeerView { retry_at: later(now, BGP_RETRY_US), state: BgpSessionState::Active, ..v };
        match local {
            None => (v1, port, None),
            Some(l) => {
                let (p, found) = port_search(c, l, address, port, BGP_PORT_TRIES as nat);
                match (found, fresh) {
                    (Some(k), Some(f)) => if can_connect {
                        (BgpPeerView { streams: seq![fresh_stream(k, f)], state: BgpSessionState::Connect, ..v1 }, p, Some(k))
                    } else {
                        (v1, p, None)
                    },
                    _ => (v1, p, None),
                }
            },
        }
    }
}

/// The first half of a step: the peer, the port counter and the actions after dropping the
/// connections that have gone, taking over inbound ones and making an active open.
pub open spec fn transport_spec(
    v: BgpPeerView,
    c: Seq<(TcpSocket, TcpState)>,
    address: Ipv4Addr,
    local: Option<Ipv4Addr>,
    can_connect: bool,
    fresh: Option<BgpSessionState>,
    port: u16,
    now: u64,
) -> (BgpPeerView, u16, Seq<BgpPeerAction>) {
    let v1 = drop_stale_spec(v, c, now);
    let (s2, a2) = accept_all(v1.streams, c, address, fresh);
    let v2 = BgpPeerView { streams: s2, ..v1 };
    let (v3, p, opened) = open_spec(v2, c, address, local, can_connect, fresh, port, now);
    (v3, p, match opened {
        Some(k) => a2.push(BgpPeerAction::Connect(k)),
        None => a2,
    })
}


/// The connection after its session machine ran: it has started, takes the machine's state,
/// peer identifier and last error, and closes after a delay when the machine asks.
pub open spec fn apply_event(e: BgpStreamState, ev: BgpSessionEvent, now: u64) -> BgpStreamState {
    BgpStreamState {
        socket: e.socket,
        session: ev.session,
        started: true,
        closing: if ev.close { Some(later(now, BGP_CLOSE_DELAY_US)) } else { None },
        peer_router_id: ev.peer_router_id,
        error: ev.error,
    }
}

/// A connection after this step's transport news: one the peer began to close closes now; on
/// an established connection that is not closing the session runs, taking what its machine
/// reported in `events` (with nothing reported it has still started).
pub open spec fn run_stream(
    e: BgpStreamState,
    c: Seq<(TcpSocket, TcpState)>,
    events: Seq<(TcpSocket, BgpSessionEvent)>,
    now: u64,
) -> BgpStreamState {
    match conn_state(c, e.socket) {
        Some(TcpState::CloseWait) => if e.closing is None {
            BgpStreamState { closing: Some(now), ..e }
        } else {
            e
        },
        Some(TcpState::Established) => if e.closing is Some {
            e
        } else if has_key(events, e.socket) {
            apply_event(e, value_of(events, e.socket), now)
        } else {
            BgpStreamState { started: true, ..e }
        },
        _ => e,
    }
}

/// The connection after its session fails with `err`: it records the error and closes after
/// a delay.
pub open spec fn fail(e: BgpStreamState, err: BgpError, now: u64) -> BgpStreamState {
    BgpStreamState { closing: Some(later(now, BGP_CLOSE_DELAY_US)), error: Some(err), ..e }
}

/// Whether a connection takes part in a collision: its session has started and it is not
/// closing.
pub open spec fn in_collision(e: BgpStreamState) -> bool {
    e.started && e.closing is None
}

/// The connections in a collision.
pub open spec fn collision_candidates(s: Seq<BgpStreamState>) -> Seq<BgpStreamState> {
    s.filter(|e: BgpStreamState| in_collision(e))
}

/// The router identifier the peer sent on the first connection in a collision that has one.
pub open spec fn first_router_id(s: Seq<BgpStreamState>) -> Option<Ipv4Addr>
    decreases s.len(),
{
    if s.len() == 0 {
        None
    } else if in_collision(s[0]) && s[0].peer_router_id is Some {
        s[0].peer_router_id
    } else {
        first_router_id(s.drop_first())
    }
}

/// The connections in a collision as sockets with whether each session is established.
pub open spec fn collision_input(s: Seq<BgpStreamState>) -> Seq<(TcpSocket, bool)> {
    collision_candidates(s).map_values(|e: BgpStreamState| (e.socket, e.session is Established))
}

/// The connection that survives a collision: only with more than one connection in it and a
/// router identifier from the peer.
pub open spec fn collision_survivor(s: Seq<BgpStreamState>, router_id: Ipv4Addr, address: Ipv4Addr) -> Option<TcpSocket> {
    if collision_candidates(s).len() > 1 {
        match first_router_id(s) {
            Some(remote) => collision_spec(collision_input(s), router_id, remote, address),
            None => None,
        }
    } else {
        None
    }
}

/// The connections after a collision: the others in it fail with a cease (6, 7).
pub open spec fn resolve_collision(s: Seq<BgpStreamState>, router_id: Ipv4Addr, address: Ipv4Addr, now: u64) -> Seq<BgpStreamState> {
    match collision_survivor(s, router_id, address) {
        None => s,
        Some(w) => s.map_values(
            |e: BgpStreamState|
                if in_collision(e) && e.socket != w {
                    fail(e, BgpError { code: 6, subcode: 7 }, now)
                } else {
                    e
                },
        ),
    }
}

/// The socket of the first usable connection.
pub open spec fn first_usable(s: Seq<BgpStreamState>) -> Option<TcpSocket>
    decreases s.len(),
{
    if s.len() == 0 {
        None
    } else if usable(s[0]) {
        Some(s[0].socket)
    } else {
        first_usable(s.drop_first())
    }
}

/// Whether `sel` names a usable connection.
pub open spec fn keeps_selection(s: Seq<BgpStreamState>, sel: Option<TcpSocket>) -> bool {
    match sel {
        Some(k) => exists|i: int| 0 <= i < s.len() && #[trigger] s[i].socket == k && usable(s[i]),
        None => false,
    }
}

/// The selected session: the current one while usable, else the first usable connection.
pub open spec fn selection(s: Seq<BgpStreamState>, sel: Option<TcpSocket>) -> Option<TcpSocket> {
    if keeps_selection(s, sel) {
        sel
    } else {
        first_usable(s)
    }
}

/// The peer's state: that of the first connection that is not closing, else active.
pub open spec fn first_open_state(s: Seq<BgpStreamState>) -> BgpSessionState
    decreases s.len(),
{
    if s.len() == 0 {
        BgpSessionState::Active
    } else if s[0].closing is None {
        s[0].session
    } else {
        first_open_state(s.drop_first())
    }
}

/// Whether the peer holds a connection on `k` that is not closing.
pub open spec fn open_stream(s: Seq<BgpStreamState>, k: TcpSocket) -> bool {
    exists|i: int| 0 <= i < s.len() && #[trigger] s[i].socket == k && s[i].closing is None
}

/// An UPDATE message as values: withdrawn and announced prefixes, and attributes.
pub open spec fn update_view(u: BgpUpdate) -> (Seq<(u32, u8)>, Seq<(u32, u8)>, Option<AttributesView>) {
    (
        prefixes_view(u.withdrawn@),
        prefixes_view(u.announced@),
        match u.attributes {
            Some(a) => Some(a@),
            None => None,
        },
    )
}

/// The peer after the UPDATE messages `us` in turn, each with the connection it came on: only
/// those on the selected session, while its connection is not closing, change the routes;
/// one that breaks a rule fails that session.
pub open spec fn apply_updates(
    v: BgpPeerView,
    us: Seq<(TcpSocket, BgpUpdate)>,
    peer_as: u32,
    local_as: u32,
    router_id: Ipv4Addr,
    cluster_id: Option<Ipv4Addr>,
    now: u64,
) -> BgpPeerView
    decreases us.len(),
{
    if us.len() == 0 {
        v
    } else {
        let v1 = apply_updates(v, us.drop_last(), peer_as, local_as, router_id, cluster_id, now);
        let k = us.last().0;
        let u = update_view(us.last().1);
        if v1.selected != Some(k) || !open_stream(v1.streams, k) {
            v1
        } else {
            let (r, err) = accept_spec(v1.received, u.0, u.1, u.2, peer_as, local_as, router_id, cluster_id, BGP_ROUTE_LIMIT as nat);
            match err {
                None => BgpPeerView { received: r, ..v1 },
                Some(e) => BgpPeerView {
                    received: r,
                    streams: v1.streams.map_values(|x: BgpStreamState| if x.socket == k { fail(x, e, now) } else { x }),
                    ..v1
                },
            }
        }
    }
}

/// The last error of the last connection that has one, else `prev`.
pub open spec fn last_error_of(s: Seq<BgpStreamState>, prev: Option<BgpError>) -> Option<BgpError>
    decreases s.len(),
{
    if s.len() == 0 {
        prev
    } else if s.last().error is Some {
        s.last().error
    } else {
        last_error_of(s.drop_last(), prev)
    }
}

/// The peer after dropping a selection that is no longer usable, with its routes.
pub open spec fn final_check(v: BgpPeerView) -> BgpPeerView {
    if keeps_selection(v.streams, v.selected) {
        v
    } else {
        BgpPeerView { selected: None, received: Seq::empty(), ..v }
    }
}

/// The second half of a step: the peer after its sessions ran on the connections `c`, with
/// what the machines reported in `events` and the UPDATE messages they received in `updates`.
/// A change of the selected session clears the routes.
pub open spec fn sessions_spec(
    v: BgpPeerView,
    c: Seq<(TcpSocket, TcpState)>,
    events: Seq<(TcpSocket, BgpSessionEvent)>,
    updates: Seq<(TcpSocket, BgpUpdate)>,
    address: Ipv4Addr,
    peer_as: u32,
    local_as: u32,
    router_id: Ipv4Addr,
    cluster_id: Option<Ipv4Addr>,
    now: u64,
) -> BgpPeerView {
    let s1 = v.streams.map_values(|e: BgpStreamState| run_stream(e, c, events, now));
    let s2 = resolve_collision(s1, router_id, address, now);
    let sel = selection(s2, v.selected);
    let v3 = BgpPeerView {
        streams: s2,
        selected: sel,
        received: if sel != v.selected { Seq::empty() } else { v.received },
        state: first_open_state(s2),
        ..v
    };
    let v4 = apply_updates(v3, updates, peer_as, local_as, router_id, cluster_id, now);
    final_check(BgpPeerView { last_error: last_error_of(v4.streams, v4.last_error), ..v4 })
}


/// A whole step: the first half, then the sessions on the same connection table.
pub open spec fn peer_step_spec(
    v: BgpPeerView,
    c: Seq<(TcpSocket, TcpState)>,
    address: Ipv4Addr,
    local: Option<Ipv4Addr>,
    can_connect: bool,
    fresh: Option<BgpSessionState>,
    port: u16,
    events: Seq<(TcpSocket, BgpSessionEvent)>,
    updates: Seq<(TcpSocket, BgpUpdate)>,
    peer_as: u32,
    local_as: u32,
    router_id: Ipv4Addr,
    cluster_id: Option<Ipv4Addr>,
    now: u64,
) -> (BgpPeerView, u16, Seq<BgpPeerAction>) {
    let (v1, p, actions) = transport_spec(v, c, address, local, can_connect, fresh, port, now);
    (sessions_spec(v1, c, events, updates, address, peer_as, local_as, router_id, cluster_id, now), p, actions)
}

/// After the sessions ran, the selected session is an established connection that is not
/// closing, and a peer without a selected session holds no routes.
pub proof fn lemma_selection_after_sessions(
    v: BgpPeerView,
    c: Seq<(TcpSocket, TcpState)>,
    events: Seq<(TcpSocket, BgpSessionEvent)>,
    updates: Seq<(TcpSocket, BgpUpdate)>,
    address: Ipv4Addr,
    peer_as: u32,
    local_as: u32,
    router_id: Ipv4Addr,
    cluster_id: Option<Ipv4Addr>,
    now: u64,
)
    ensures
        selection_ok(sessions_spec(v, c, events, updates, address, peer_as, local_as, router_id, cluster_id, now)),
{
}

/// Whether `a` comes before `b`.
fn socket_less(a: TcpSocket, b: TcpSocket) -> (r: bool)
    ensures
        r == socket_before(a, b),
{
    if a.local_address.0 != b.local_address.0 {
        a.local_address.0 < b.local_address.0
    } else if a.local_port != b.local_port {
        a.local_port < b.local_port
    } else if a.remote_address.0 != b.remote_address.0 {
        a.remote_address.0 < b.remote_address.0
    } else {
        a.remote_port < b.remote_port
    }
}

/// The state of the connection on socket `s`.
fn find_connection(connections: &[(TcpSocket, TcpState)], s: TcpSocket) -> (r: Option<TcpState>)
    requires
        keys_unique(connections@),
    ensures
        r == conn_state(connections@, s),
{
    let mut i: usize = 0;
    while i < connections.len()
        invariant
            i <= connections@.len(),
            keys_unique(connections@),
            forall|j: int| 0 <= j < i ==> (#[trigger] connections@[j]).0 != s,
        decreases connections@.len() - i,
    {
        if connections[i].0 == s {
            proof {
                lemma_key_index(connections@, i as int);
            }
            return Some(connections[i].1);
        }
        i = i + 1;
    }
    None
}

/// Whether the connection of `s` has gone.
fn connection_gone(connections: &[(TcpSocket, TcpState)], s: TcpSocket) -> (r: bool)
    requires
        keys_unique(connections@),
    ensures
        r == gone(connections@, s),
{
    match find_connection(connections, s) {
        None => true,
        Some(t) => match t {
            TcpState::Closed | TcpState::TimeWait | TcpState::LastAck | TcpState::FinWait => true,
            _ => false,
        },
    }
}

/// Keeping some connections keeps them in order.
proof fn lemma_filter_sorted(s: Seq<BgpStreamState>, p: spec_fn(BgpStreamState) -> bool)
    requires
        streams_sorted(s),
    ensures
        streams_sorted(s.filter(p)),
        s.filter(p).len() <= s.len(),
    decreases s.len(),
{
    reveal(Seq::filter);
    if s.len() > 0 {
        let d = s.drop_last();
        assert(streams_sorted(d));
        lemma_filter_sorted(d, p);
        let f = d.filter(p);
        if p(s.last()) {
            assert forall|i: int| 0 <= i < f.len() implies socket_before(f[i].socket, s.last().socket) by {
                assert(f.contains(f[i]));
                d.lemma_filter_contains_rev(p, f[i]);
                let j = choose|j: int| 0 <= j < d.len() && d[j] == f[i];
                assert(s[j] == d[j]);
            }
            let g = f.push(s.last());
            assert forall|i: int, j: int| 0 <= i < j < g.len() implies socket_before(#[trigger] g[i].socket, #[trigger] g[j].socket) by {
                if j == g.len() - 1 {
                    assert(g[i] == f[i]);
                } else {
                    assert(g[i] == f[i] && g[j] == f[j]);
                }
            }
        }
    }
}


/// Connections on the same sockets in the same order stay in order.
proof fn lemma_same_sockets(a: Seq<BgpStreamState>, b: Seq<BgpStreamState>)
    requires
        streams_sorted(a),
        a.len() == b.len(),
        forall|i: int| 0 <= i < a.len() ==> (#[trigger] b[i]).socket == a[i].socket,
    ensures
        streams_sorted(b),
{
    assert forall|i: int, j: int| 0 <= i < j < b.len() implies socket_before(#[trigger] b[i].socket, #[trigger] b[j].socket) by {
        assert(a[i].socket == b[i].socket && a[j].socket == b[j].socket);
    }
}

/// What the session machine on socket `k` reported.
fn find_event(events: &[(TcpSocket, BgpSessionEvent)], k: TcpSocket) -> (r: Option<BgpSessionEvent>)
    requires
        keys_unique(events@),
    ensures
        r == (if has_key(events@, k) { Some(value_of(events@, k)) } else { None }),
{
    let mut i: usize = 0;
    while i < events.len()
        invariant
            i <= events@.len(),
            keys_unique(events@),
            forall|j: int| 0 <= j < i ==> (#[trigger] events@[j]).0 != k,
        decreases events@.len() - i,
    {
        if events[i].0 == k {
            proof {
                lemma_key_index(events@, i as int);
            }
            return Some(events[i].1);
        }
        i = i + 1;
    }
    None
}

/// Whether `sel` names a usable connection of `streams`.
fn selection_kept(streams: &Vec<BgpStreamState>, sel: Option<TcpSocket>) -> (r: bool)
    ensures
        r == keeps_selection(streams@, sel),
{
    let k = match sel {
        None => {
            return false;
        },
        Some(k) => k,
    };
    let mut i: usize = 0;
    while i < streams.len()
        invariant
            i <= streams@.len(),
            sel == Some(k),
            forall|j: int| 0 <= j < i ==> !((#[trigger] streams@[j]).socket == k && usable(streams@[j])),
        decreases streams@.len() - i,
    {
        let e = streams[i];
        if e.socket == k && e.closing.is_none() && e.session == BgpSessionState::Established {
            return true;
        }
        i = i + 1;
    }
    false
}

/// Whether `streams` holds a connection on `k` that is not closing.
fn holds_open_stream(streams: &Vec<BgpStreamState>, k: TcpSocket) -> (r: bool)
    ensures
        r == open_stream(streams@, k),
{
    let mut i: usize = 0;
    while i < streams.len()
        invariant
            i <= streams@.len(),
            forall|j: int| 0 <= j < i ==> !((#[trigger] streams@[j]).socket == k && streams@[j].closing is None),
        decreases streams@.len() - i,
    {
        if streams[i].socket == k && streams[i].closing.is_none() {
            return true;
        }
        i = i + 1;
    }
    false
}

/// The socket of the first usable connection.
fn first_usable_socket(streams: &Vec<BgpStreamState>) -> (r: Option<TcpSocket>)
    ensures
        r == first_usable(streams@),
{
    let ghost s = streams@;
    let mut i: usize = 0;
    assert(s.skip(0) =~= s);
    while i < streams.len()
        invariant
            i <= s.len(),
            s == streams@,
            first_usable(s) == first_usable(s.skip(i as int)),
        decreases s.len() - i,
    {
        proof {
            assert(s.skip(i as int).drop_first() =~= s.skip(i + 1));
            assert(s.skip(i as int)[0] == s[i as int]);
        }
        let e = streams[i];
        if e.closing.is_none() && e.session == BgpSessionState::Established {
            return Some(e.socket);
        }
        i = i + 1;
    }
    proof {
        assert(s.skip(i as int).len() == 0);
    }
    None
}

/// The state of the first connection that is not closing, else active.
fn open_state(streams: &Vec<BgpStreamState>) -> (r: BgpSessionState)
    ensures
        r == first_open_state(streams@),
{
    let ghost s = streams@;
    let mut i: usize = 0;
    assert(s.skip(0) =~= s);
    while i < streams.len()
        invariant
            i <= s.len(),
            s == streams@,
            first_open_state(s) == first_open_state(s.skip(i as int)),
        decreases s.len() - i,
    {
        proof {
            assert(s.skip(i as int).drop_first() =~= s.skip(i + 1));
            assert(s.skip(i as int)[0] == s[i as int]);
        }
        if streams[i].closing.is_none() {
            return streams[i].session;
        }
        i = i + 1;
    }
    proof {
        assert(s.skip(i as int).len() == 0);
    }
    BgpSessionState::Active
}

/// The router identifier the peer sent on the first connection in a collision that has one.
fn collision_router_id(streams: &Vec<BgpStreamState>) -> (r: Option<Ipv4Addr>)
    ensures
        r == first_router_id(streams@),
{
    let ghost s = streams@;
    let mut i: usize = 0;
    assert(s.skip(0) =~= s);
    while i < streams.len()
        invariant
            i <= s.len(),
            s == streams@,
            first_router_id(s) == first_router_id(s.skip(i as int)),
        decreases s.len() - i,
    {
        proof {
            assert(s.skip(i as int).drop_first() =~= s.skip(i + 1));
            assert(s.skip(i as int)[0] == s[i as int]);
        }
        let e = streams[i];
        if e.started && e.closing.is_none() && e.peer_router_id.is_some() {
            return e.peer_router_id;
        }
        i = i + 1;
    }
    proof {
        assert(s.skip(i as int).len() == 0);
    }
    None
}

/// The last error of the last connection that has one, else `prev`.
fn streams_last_error(streams: &Vec<BgpStreamState>, prev: Option<BgpError>) -> (r: Option<BgpError>)
    ensures
        r == last_error_of(streams@, prev),
{
    let ghost s = streams@;
    let mut cur = prev;
    let mut i: usize = 0;
    while i < streams.len()
        invariant
            i <= s.len(),
            s == streams@,
            cur == last_error_of(s.take(i as int), prev),
        decreases s.len() - i,
    {
        proof {
            assert(s.take(i + 1).drop_last() =~= s.take(i as int));
            assert(s.take(i + 1).last() == s[i as int]);
        }
        if streams[i].error.is_some() {
            cur = streams[i].error;
        }
        i = i + 1;
    }
    proof {
        assert(s.take(s.len() as int) =~= s);
    }
    cur
}

/// Fail the session on socket `k` with `err`.
fn fail_stream(streams: &mut Vec<BgpStreamState>, k: TcpSocket, err: BgpError, now: u64)
    requires
        streams_sorted(old(streams)@),
    ensures
        streams_sorted(final(streams)@),
        final(streams)@ == old(streams)@.map_values(|x: BgpStreamState| if x.socket == k { fail(x, err, now) } else { x }),
{
    let ghost s0 = streams@;
    let ghost f = |x: BgpStreamState| if x.socket == k { fail(x, err, now) } else { x };
    let mut i: usize = 0;
    while i < streams.len()
        invariant
            i <= s0.len(),
            streams@.len() == s0.len(),
            f == (|x: BgpStreamState| if x.socket == k { fail(x, err, now) } else { x }),
            forall|j: int| 0 <= j < i ==> (#[trigger] streams@[j]) == f(s0[j]),
            forall|j: int| i <= j < s0.len() ==> (#[trigger] streams@[j]) == s0[j],
        decreases s0.len() - i,
    {
        let e = streams[i];
        if e.socket == k {
            streams.set(i, BgpStreamState { closing: Some(now.saturating_add(BGP_CLOSE_DELAY_US)), error: Some(err), ..e });
        }
        i = i + 1;
    }
    proof {
        assert(streams@ =~= s0.map_values(f));
        lemma_same_sockets(s0, streams@);
    }
}

impl BgpPeerState {
    /// A peer with no connections, no routes and no error, in the idle state, that may open a
    /// connection from `now` on.
    pub fn new(now: u64) -> (r: BgpPeerState)
        ensures
            r@.streams.len() == 0,
            r@.selected is None,
            r@.received.len() == 0,
            r@.retry_at == now,
            r@.state is Idle,
            r@.last_error is None,
            peer_wf(r@),
            selection_ok(r@),
    {
        BgpPeerState {
            streams: Vec::new(),
            selected: None,
            received: BgpRoutes::new(),
            retry_at: now,
            state: BgpSessionState::Idle,
            last_error: None,
        }
    }

    /// Drop the connections that have gone.
    fn drop_stale(&mut self, connections: &[(TcpSocket, TcpState)], now: u64)
        requires
            keys_unique(connections@),
            peer_wf(old(self)@),
        ensures
            peer_wf(final(self)@),
            final(self)@ == drop_stale_spec(old(self)@, connections@, now),
    {
        let ghost v = self@;
        let ghost c = connections@;
        let ghost pred = |e: BgpStreamState| !gone(c, e.socket);
        let mut kept: Vec<BgpStreamState> = Vec::new();
        let mut lost = false;
        let mut i: usize = 0;
        while i < self.streams.len()
            invariant
                i <= v.streams.len(),
                self@ == v,
                c == connections@,
                keys_unique(c),
                pred == (|e: BgpStreamState| !gone(c, e.socket)),
                kept@ == v.streams.take(i as int).filter(pred),
                kept@.len() <= i,
                lost == (match v.selected {
                    Some(k) => exists|j: int| 0 <= j < i && #[trigger] v.streams[j].socket == k && gone(c, k),
                    None => false,
                }),
            decreases v.streams.len() - i,
        {
            let e = self.streams[i];
            let g = connection_gone(connections, e.socket);
            proof {
                assert(v.streams.take(i + 1) =~= v.streams.take(i as int).push(e));
                v.streams.take(i as int).lemma_filter_push(e, pred);
            }
            if !g {
                kept.push(e);
            } else {
                match self.selected {
                    Some(k) => {
                        if k == e.socket {
                            lost = true;
                        }
                    },
                    None => {},
                }
            }
            i = i + 1;
        }
        proof {
            assert(v.streams.take(v.streams.len() as int) =~= v.streams);
            lemma_filter_sorted(v.streams, pred);
        }
        if kept.len() < self.streams.len() {
            self.streams = kept;
            if lost {
                self.selected = None;
                self.received = BgpRoutes::new();
            }
            self.retry_at = now.saturating_add(BGP_RETRY_US);
            self.state = BgpSessionState::Active;
            proof {
                let lost_spec = match v.selected {
                    Some(k) => has_stream(v.streams, k) && gone(c, k),
                    None => false,
                };
                assert(lost == lost_spec);
                assert(self@.received =~= drop_stale_spec(v, c, now).received);
            }
        }
    }
}

/// Whether `streams` holds a connection on socket `k`.
fn holds_stream(streams: &Vec<BgpStreamState>, k: TcpSocket) -> (r: bool)
    ensures
        r == has_stream(streams@, k),
{
    let mut i: usize = 0;
    while i < streams.len()
        invariant
            i <= streams@.len(),
            forall|j: int| 0 <= j < i ==> (#[trigger] streams@[j]).socket != k,
        decreases streams@.len() - i,
    {
        if streams[i].socket == k {
            return true;
        }
        i = i + 1;
    }
    false
}

/// Whether a connection in state `t` from `k` is an inbound connection of the peer at `address`.
fn is_wanted_inbound(k: TcpSocket, t: TcpState, address: Ipv4Addr) -> (r: bool)
    ensures
        r == wanted_inbound(k, t, address),
{
    let open = match t {
        TcpState::SynReceived | TcpState::Established | TcpState::CloseWait => true,
        _ => false,
    };
    k.remote_address == address && k.local_port == BGP_PORT && open
}

impl BgpPeerState {
    /// Take over the inbound connections of the peer at `address`.
    fn accept_inbound(
        &mut self,
        connections: &[(TcpSocket, TcpState)],
        address: Ipv4Addr,
        fresh: Option<BgpSessionState>,
    ) -> (r: Vec<BgpPeerAction>)
        requires
            peer_wf(old(self)@),
        ensures
            peer_wf(final(self)@),
            final(self)@ == (BgpPeerView { streams: accept_all(old(self)@.streams, connections@, address, fresh).0, ..old(self)@ }),
            r@ == accept_all(old(self)@.streams, connections@, address, fresh).1,
    {
        let ghost v = self@;
        let ghost c = connections@;
        let mut actions: Vec<BgpPeerAction> = Vec::new();
        let mut i: usize = 0;
        while i < connections.len()
            invariant
                i <= c.len(),
                c == connections@,
                peer_wf(self@),
                self@ == (BgpPeerView { streams: accept_all(v.streams, c.take(i as int), address, fresh).0, ..v }),
                actions@ == accept_all(v.streams, c.take(i as int), address, fresh).1,
            decreases c.len() - i,
        {
            proof {
                assert(c.take(i + 1).drop_last() =~= c.take(i as int));
                assert(c.take(i + 1).last() == c[i as int]);
            }
            let k = connections[i].0;
            let t = connections[i].1;
            if is_wanted_inbound(k, t, address) && !holds_stream(&self.streams, k) {
                if self.streams.len() >= 2 {
                    actions.push(BgpPeerAction::Abort(k));
                } else {
                    match fresh {
                        Some(f) => {
                            let e = BgpStreamState {
                                socket: k,
                                session: f,
                                started: false,
                                closing: None,
                                peer_router_id: None,
                                error: None,
                            };
                            let ghost before = self.streams@;
                            if self.streams.len() == 1 && socket_less(k, self.streams[0].socket) {
                                self.streams.insert(0, e);
                                proof {
                                    assert(self.streams@ =~= seq![e, before[0]]);
                                }
                            } else {
                                self.streams.push(e);
                                proof {
                                    if before.len() == 1 {
                                        assert(before[0].socket != k);
                                    }
                                }
                            }
                            actions.push(BgpPeerAction::Accept(k));
                        },
                        None => {},
                    }
                }
            }
            i = i + 1;
        }
        proof {
            assert(c.take(c.len() as int) =~= c);
        }
        actions
    }

    /// Make an active open to `address` when the peer has no connections and the retry time has
    /// come.
    fn active_open(
        &mut self,
        connections: &[(TcpSocket, TcpState)],
        address: Ipv4Addr,
        local: Option<Ipv4Addr>,
        can_connect: bool,
        fresh: Option<BgpSessionState>,
        next_port: &mut u16,
        now: u64,
    ) -> (r: Option<TcpSocket>)
        requires
            keys_unique(connections@),
            peer_wf(old(self)@),
        ensures
            peer_wf(final(self)@),
            (final(self)@, *final(next_port), r) == open_spec(
                old(self)@,
                connections@,
                address,
                local,
                can_connect,
                fresh,
                *old(next_port),
                now,
            ),
    {
        if !(self.streams.len() == 0 && self.retry_at <= now) {
            return None;
        }
        self.retry_at = now.saturating_add(BGP_RETRY_US);
        self.state = BgpSessionState::Active;
        let l = match local {
            None => {
                return None;
            },
            Some(l) => l,
        };
        let ghost c = connections@;
        let ghost p0 = *next_port;
        let mut port: u16 = *next_port;
        let mut found: Option<TcpSocket> = None;
        let mut tries: u32 = 0;
        while tries < BGP_PORT_TRIES
            invariant_except_break
                tries <= BGP_PORT_TRIES,
                found is None,
                port_search(c, l, address, p0, BGP_PORT_TRIES as nat) == port_search(c, l, address, port, (BGP_PORT_TRIES - tries) as nat),
            invariant
                c == connections@,
                keys_unique(c),
            ensures
                port_search(c, l, address, p0, BGP_PORT_TRIES as nat) == (port, found),
            decreases BGP_PORT_TRIES - tries,
        {
            port = if port < 49152 || port == 65535 {
                49152
            } else {
                port + 1
            };
            let candidate = TcpSocket { local_address: l, local_port: port, remote_address: address, remote_port: BGP_PORT };
            if find_connection(connections, candidate).is_none() {
                found = Some(candidate);
                break;
            }
            tries = tries + 1;
        }
        *next_port = port;
        match (found, fresh) {
            (Some(k), Some(f)) => {
                if can_connect {
                    self.streams.push(BgpStreamState {
                        socket: k,
                        session: f,
                        started: false,
                        closing: None,
                        peer_router_id: None,
                        error: None,
                    });
                    self.state = BgpSessionState::Connect;
                    proof {
                        assert(self.streams@ =~= seq![fresh_stream(k, f)]);
                    }
                    Some(k)
                } else {
                    None
                }
            },
            _ => None,
        }
    }
}

impl BgpPeerState {
    /// Run the sessions on this step's connection news.
    fn run_streams(
        &mut self,
        connections: &[(TcpSocket, TcpState)],
        events: &[(TcpSocket, BgpSessionEvent)],
        now: u64,
    )
        requires
            keys_unique(connections@),
            keys_unique(events@),
            peer_wf(old(self)@),
        ensures
            peer_wf(final(self)@),
            final(self)@ == (BgpPeerView {
                streams: old(self)@.streams.map_values(|e: BgpStreamState| run_stream(e, connections@, events@, now)),
                ..old(self)@
            }),
    {
        let ghost v = self@;
        let ghost f = |e: BgpStreamState| run_stream(e, connections@, events@, now);
        let mut out: Vec<BgpStreamState> = Vec::new();
        let mut i: usize = 0;
        while i < self.streams.len()
            invariant
                i <= v.streams.len(),
                self@ == v,
                keys_unique(connections@),
                keys_unique(events@),
                f == (|e: BgpStreamState| run_stream(e, connections@, events@, now)),
                out@.len() == i,
                forall|j: int| 0 <= j < i ==> (#[trigger] out@[j]) == f(v.streams[j]),
            decreases v.streams.len() - i,
        {
            let e = self.streams[i];
            let ne = match find_connection(connections, e.socket) {
                Some(TcpState::CloseWait) => {
                    if e.closing.is_none() {
                        BgpStreamState { closing: Some(now), ..e }
                    } else {
                        e
                    }
                },
                Some(TcpState::Established) => {
                    if e.closing.is_some() {
                        e
                    } else {
                        match find_event(events, e.socket) {
                            Some(ev) => BgpStreamState {
                                socket: e.socket,
                                session: ev.session,
                                started: true,
                                closing: if ev.close {
                                    Some(now.saturating_add(BGP_CLOSE_DELAY_US))
                                } else {
                                    None
                                },
                                peer_router_id: ev.peer_router_id,
                                error: ev.error,
                            },
                            None => BgpStreamState { started: true, ..e },
                        }
                    }
                },
                _ => e,
            };
            out.push(ne);
            i = i + 1;
        }
        proof {
            assert(out@ =~= v.streams.map_values(f));
            lemma_same_sockets(v.streams, out@);
        }
        self.streams = out;
    }

    /// Resolve a collision between the peer's connections.
    fn collide(&mut self, router_id: Ipv4Addr, address: Ipv4Addr, now: u64)
        requires
            peer_wf(old(self)@),
        ensures
            peer_wf(final(self)@),
            final(self)@ == (BgpPeerView {
                streams: resolve_collision(old(self)@.streams, router_id, address, now),
                ..old(self)@
            }),
    {
        let ghost v = self@;
        let ghost s = v.streams;
        let ghost pred = |e: BgpStreamState| in_collision(e);
        let ghost g = |e: BgpStreamState| (e.socket, e.session is Established);
        let mut cand: Vec<(TcpSocket, bool)> = Vec::new();
        let mut i: usize = 0;
        while i < self.streams.len()
            invariant
                i <= s.len(),
                self@ == v,
                s == v.streams,
                pred == (|e: BgpStreamState| in_collision(e)),
                g == (|e: BgpStreamState| (e.socket, e.session is Established)),
                cand@ == s.take(i as int).filter(pred).map_values(g),
            decreases s.len() - i,
        {
            let e = self.streams[i];
            proof {
                assert(s.take(i + 1) =~= s.take(i as int).push(e));
                s.take(i as int).lemma_filter_push(e, pred);
                assert(s.take(i as int).filter(pred).push(e).map_values(g) =~= s.take(i as int).filter(pred).map_values(g).push(g(e)));
            }
            if e.started && e.closing.is_none() {
                cand.push((e.socket, e.session == BgpSessionState::Established));
            }
            i = i + 1;
        }
        proof {
            assert(s.take(s.len() as int) =~= s);
            assert(cand@ == collision_input(s));
        }
        if cand.len() <= 1 {
            return;
        }
        let remote = match collision_router_id(&self.streams) {
            None => {
                return;
            },
            Some(r) => r,
        };
        let w = match bgp_collision_winner(&cand, router_id, remote, address) {
            None => {
                return;
            },
            Some(w) => w,
        };
        let ghost f = |e: BgpStreamState|
            if in_collision(e) && e.socket != w {
                fail(e, BgpError { code: 6, subcode: 7 }, now)
            } else {
                e
            };
        let mut j: usize = 0;
        while j < self.streams.len()
            invariant
                j <= s.len(),
                self.streams@.len() == s.len(),
                self@ == (BgpPeerView { streams: self.streams@, ..v }),
                f == (|e: BgpStreamState|
                    if in_collision(e) && e.socket != w {
                        fail(e, BgpError { code: 6, subcode: 7 }, now)
                    } else {
                        e
                    }),
                forall|k: int| 0 <= k < j ==> (#[trigger] self.streams@[k]) == f(s[k]),
                forall|k: int| j <= k < s.len() ==> (#[trigger] self.streams@[k]) == s[k],
            decreases s.len() - j,
        {
            let e = self.streams[j];
            if e.started && e.closing.is_none() && e.socket != w {
                self.streams.set(j, BgpStreamState {
                    closing: Some(now.saturating_add(BGP_CLOSE_DELAY_US)),
                    error: Some(BgpError { code: 6, subcode: 7 }),
                    ..e
                });
            }
            j = j + 1;
        }
        proof {
            assert(self.streams@ =~= s.map_values(f));
            lemma_same_sockets(s, self.streams@);
        }
    }

    /// Select the session to take routes from and set the peer's state; a change of the
    /// selected session clears the routes.
    fn select(&mut self)
        requires
            peer_wf(old(self)@),
        ensures
            peer_wf(final(self)@),
            final(self)@ == ({
                let v = old(self)@;
                let sel = selection(v.streams, v.selected);
                BgpPeerView {
                    selected: sel,
                    received: if sel != v.selected { Seq::empty() } else { v.received },
                    state: first_open_state(v.streams),
                    ..v
                }
            }),
    {
        let sel = if selection_kept(&self.streams, self.selected) {
            self.selected
        } else {
            first_usable_socket(&self.streams)
        };
        let same = match (sel, self.selected) {
            (Some(a), Some(b)) => a == b,
            (None, None) => true,
            _ => false,
        };
        if !same {
            self.received = BgpRoutes::new();
            self.selected = sel;
        }
        self.state = open_state(&self.streams);
    }

    /// Apply the UPDATE messages the sessions received.
    fn take_updates(
        &mut self,
        updates: &[(TcpSocket, BgpUpdate)],
        peer_as: u32,
        local_as: u32,
        router_id: Ipv4Addr,
        cluster_id: Option<Ipv4Addr>,
        now: u64,
    )
        requires
            peer_wf(old(self)@),
        ensures
            peer_wf(final(self)@),
            final(self)@ == apply_updates(old(self)@, updates@, peer_as, local_as, router_id, cluster_id, now),
    {
        let ghost v = self@;
        let ghost us = updates@;
        let mut i: usize = 0;
        while i < updates.len()
            invariant
                i <= us.len(),
                us == updates@,
                peer_wf(self@),
                self@ == apply_updates(v, us.take(i as int), peer_as, local_as, router_id, cluster_id, now),
            decreases us.len() - i,
        {
            proof {
                assert(us.take(i + 1).drop_last() =~= us.take(i as int));
                assert(us.take(i + 1).last() == us[i as int]);
            }
            let k = updates[i].0;
            let u = &updates[i].1;
            let on_selected = match self.selected {
                Some(x) => x == k,
                None => false,
            };
            if on_selected && holds_open_stream(&self.streams, k) {
                let ghost r0 = self.received@;
                let err = self.received.accept_update(u, peer_as, local_as, router_id, cluster_id);
                proof {
                    let uv = update_view(*u);
                    lemma_route_limit(r0, uv.0, uv.1, uv.2, peer_as, local_as, router_id, cluster_id, BGP_ROUTE_LIMIT as nat);
                }
                match err {
                    Some(e) => fail_stream(&mut self.streams, k, e, now),
                    None => {},
                }
            }
            i = i + 1;
        }
        proof {
            assert(us.take(us.len() as int) =~= us);
        }
    }
}

/// The second half of a step for the peer at `address`, after the session machines ran:
/// a connection the peer began to close closes now; each session on an established
/// connection takes what its machine reported in `events`; a collision fails the connections
/// that do not survive it; the selected session is kept while usable, else the first usable
/// one is selected (a change clears the routes); the UPDATE messages in `updates` received on
/// the selected session change its routes; the peer takes the state of its first connection
/// that is not closing and the last error of its connections; and a selection that is no
/// longer usable is dropped with its routes. `peer_as`, `local_as`, `router_id` and
/// `cluster_id` are the peer's and this speaker's identity.
pub fn bgp_peer_sessions(
    peer: &mut BgpPeerState,
    connections: &[(TcpSocket, TcpState)],
    events: &[(TcpSocket, BgpSessionEvent)],
    updates: &[(TcpSocket, BgpUpdate)],
    address: Ipv4Addr,
    peer_as: u32,
    local_as: u32,
    router_id: Ipv4Addr,
    cluster_id: Option<Ipv4Addr>,
    now: u64,
)
    requires
        keys_unique(connections@),
        keys_unique(events@),
        peer_wf(old(peer)@),
    ensures
        peer_wf(final(peer)@),
        final(peer)@ == sessions_spec(
            old(peer)@,
            connections@,
            events@,
            updates@,
            address,
            peer_as,
            local_as,
            router_id,
            cluster_id,
            now,
        ),
{
    peer.run_streams(connections, events, now);
    peer.collide(router_id, address, now);
    peer.select();
    peer.take_updates(updates, peer_as, local_as, router_id, cluster_id, now);
    peer.last_error = streams_last_error(&peer.streams, peer.last_error);
    if !selection_kept(&peer.streams, peer.selected) {
        peer.selected = None;
        peer.received = BgpRoutes::new();
    }
}

/// The first half of a step for the peer at `address`: drop the connections that have gone,
/// take over inbound connections, and make an active open from `local` (the source address
/// towards the peer, when there is one) when the peer has no connections and its retry time
/// has come. `connections` is the TCP layer's table, `fresh` the first state of a new session
/// machine (none when one cannot be made for this peer), `can_connect` whether the TCP layer
/// accepts an active open to the peer, and `next_port` the port counter of active opens.
/// Returns what the TCP layer is to do.
pub fn bgp_peer_transport(
    peer: &mut BgpPeerState,
    connections: &[(TcpSocket, TcpState)],
    address: Ipv4Addr,
    local: Option<Ipv4Addr>,
    can_connect: bool,
    fresh: Option<BgpSessionState>,
    next_port: &mut u16,
    now: u64,
) -> (r: Vec<BgpPeerAction>)
    requires
        keys_unique(connections@),
        peer_wf(old(peer)@),
    ensures
        peer_wf(final(peer)@),
        (final(peer)@, *final(next_port), r@) == transport_spec(
            old(peer)@,
            connections@,
            address,
            local,
            can_connect,
            fresh,
            *old(next_port),
            now,
        ),
{
    peer.drop_stale(connections, now);
    let mut actions = peer.accept_inbound(connections, address, fresh);
    let opened = peer.active_open(connections, address, local, can_connect, fresh, next_port, now);
    match opened {
        Some(k) => actions.push(BgpPeerAction::Connect(k)),
        None => {},
    }
    actions
}

/// One step of the peer at `address`: `bgp_peer_transport`, then `bgp_peer_sessions` on the
/// same connection table. Afterwards the peer holds at most two connections, in socket order,
/// and at most the route limit of routes; its selected session is an established connection
/// that is not closing; and without one it holds no routes.
pub fn bgp_peer_step(
    peer: &mut BgpPeerState,
    connections: &[(TcpSocket, TcpState)],
    address: Ipv4Addr,
    local: Option<Ipv4Addr>,
    can_connect: bool,
    fresh: Option<BgpSessionState>,
    next_port: &mut u16,
    events: &[(TcpSocket, BgpSessionEvent)],
    updates: &[(TcpSocket, BgpUpdate)],
    peer_as: u32,
    local_as: u32,
    router_id: Ipv4Addr,
    cluster_id: Option<Ipv4Addr>,
    now: u64,
) -> (r: Vec<BgpPeerAction>)
    requires
        keys_unique(connections@),
        keys_unique(events@),
        peer_wf(old(peer)@),
    ensures
        peer_wf(final(peer)@),
        selection_ok(final(peer)@),
        (final(peer)@, *final(next_port), r@) == peer_step_spec(
            old(peer)@,
            connections@,
            address,
            local,
            can_connect,
            fresh,
            *old(next_port),
            events@,
            updates@,
            peer_as,
            local_as,
            router_id,
            cluster_id,
            now,
        ),
{
    let actions = bgp_peer_transport(peer, connections, address, local, can_connect, fresh, next_port, now);
    let ghost mid = peer@;
    bgp_peer_sessions(peer, connections, events, updates, address, peer_as, local_as, router_id, cluster_id, now);
    proof {
        lemma_selection_after_sessions(mid, connections@, events@, updates@, address, peer_as, local_as, router_id, cluster_id, now);
    }
    actions
}

} // verus!
