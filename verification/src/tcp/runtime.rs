//! The TCP endpoints of one device: listeners, connections in socket order, and the
//! operations applications and arriving segments perform on them.
use super::{
    connection_wf, emitted, fresh, has_flags, lemma_reset_never_answered, lingers, receive_spec,
    retransmit_step, send_spec, sequence_len, ConnectionView, SegmentView, TcpConnection,
    TcpSegment, TcpSocket, TcpState, ACK, FIN, PSH, RST, SYN,
};
use crate::ipv4::Ipv4Addr;
use crate::text::copy_range;
use vstd::prelude::*;
use vstd::wrapping::u32_specs::wrapping_add;

verus! {

/// Largest number of connections a runtime tracks.
pub const MAX_CONNECTIONS: usize = 1024;

/// Largest number of listening ports.
pub const MAX_LISTENERS: usize = 1024;

/// Largest payload of one application send.
pub const MAX_PAYLOAD: usize = 1200;

/// Distance between the initial sequence numbers of successive connections.
pub const SEQUENCE_STEP: u32 = 64000;

/// Rejected TCP application operations.
#[derive(Debug, Clone, Copy, PartialEq, Eq, Structural)]
pub enum TcpError {
    /// The connection does not exist.
    Missing,
    /// The operation is invalid in the connection's state.
    State,
    /// A send is waiting for an acknowledgment or for the peer's window.
    Busy,
    /// Too many connections or listeners, or a payload outside 1..=1200 bytes.
    Capacity,
    /// A zero port, a local address the device does not own, or an unusable remote address.
    Endpoint,
}

/// The TCP endpoints of one device: connections in ascending socket order, listening ports,
/// and the source of initial sequence numbers.
#[derive(Debug)]
pub struct TcpRuntime {
    connections: Vec<(TcpSocket, TcpConnection)>,
    listeners: Vec<u16>,
    next_sequence: u32,
}

/// A runtime as a mathematical value.
#[verifier::ext_equal]
pub struct RuntimeView {
    pub connections: Seq<(TcpSocket, ConnectionView)>,
    pub listeners: Seq<u16>,
    pub next_sequence: u32,
}

impl View for TcpRuntime {
    type V = RuntimeView;

    closed spec fn view(&self) -> RuntimeView {
        RuntimeView {
            connections: listing_view(self.connections@),
            listeners: self.listeners@,
            next_sequence: self.next_sequence,
        }
    }
}

/// The order of sockets: by local address, local port, remote address, then remote port.
pub open spec fn socket_before(a: TcpSocket, b: TcpSocket) -> bool {
    ||| a.local_address.0 < b.local_address.0
    ||| a.local_address.0 == b.local_address.0 && a.local_port < b.local_port
    ||| a.local_address.0 == b.local_address.0 && a.local_port == b.local_port
        && a.remote_address.0 < b.remote_address.0
    ||| a.local_address.0 == b.local_address.0 && a.local_port == b.local_port
        && a.remote_address.0 == b.remote_address.0 && a.remote_port < b.remote_port
}

/// Connections listed in strictly ascending socket order, so no socket occurs twice.
pub open spec fn sockets_sorted(conns: Seq<(TcpSocket, ConnectionView)>) -> bool {
    forall|i: int, j: int|
        0 <= i < j < conns.len() ==> socket_before(#[trigger] conns[i].0, #[trigger] conns[j].0)
}

/// Whether a connection for `socket` exists.
pub open spec fn holds_socket(conns: Seq<(TcpSocket, ConnectionView)>, socket: TcpSocket) -> bool {
    exists|i: int| 0 <= i < conns.len() && #[trigger] conns[i].0 == socket
}

/// Where the connection for `socket` is listed.
pub open spec fn socket_index(conns: Seq<(TcpSocket, ConnectionView)>, socket: TcpSocket) -> int {
    choose|i: int| 0 <= i < conns.len() && #[trigger] conns[i].0 == socket
}

/// Whether every socket listed before `j` precedes `socket`, and every one from `j` on
/// follows it.
pub open spec fn splits_at(conns: Seq<(TcpSocket, ConnectionView)>, socket: TcpSocket, j: int) -> bool {
    &&& 0 <= j <= conns.len()
    &&& forall|i: int| 0 <= i < j ==> socket_before(#[trigger] conns[i].0, socket)
    &&& forall|i: int| j <= i < conns.len() ==> socket_before(socket, #[trigger] conns[i].0)
}

/// Where a connection for `socket` is inserted to keep the listing in order.
pub open spec fn insertion_point(conns: Seq<(TcpSocket, ConnectionView)>, socket: TcpSocket) -> int {
    choose|j: int| splits_at(conns, socket, j)
}

/// The connections after adding one for a socket that has none.
pub open spec fn insert_connection(conns: Seq<(TcpSocket, ConnectionView)>, socket: TcpSocket, c: ConnectionView) -> Seq<(TcpSocket, ConnectionView)> {
    conns.insert(insertion_point(conns, socket), (socket, c))
}

/// A runtime whose listing is ordered, whose connections are within their buffer limits,
/// and whose listening ports occur once each.
pub open spec fn runtime_wf(v: RuntimeView) -> bool {
    &&& sockets_sorted(v.connections)
    &&& forall|i: int| 0 <= i < v.connections.len() ==> connection_wf(#[trigger] v.connections[i].1)
    &&& v.listeners.no_duplicates()
}

/// The runtime and result of opening a listener on `port`.
pub open spec fn listen_spec(v: RuntimeView, port: u16) -> (RuntimeView, Result<(), TcpError>) {
    if port == 0 {
        (v, Err(TcpError::Endpoint))
    } else if v.listeners.contains(port) {
        (v, Ok(()))
    } else if v.listeners.len() >= MAX_LISTENERS {
        (v, Err(TcpError::Capacity))
    } else {
        (RuntimeView { listeners: v.listeners.push(port), ..v }, Ok(()))
    }
}


/// Whether a connection may be opened from `socket`: nonzero ports, a local address the
/// device owns, and a remote address that is neither unspecified, multicast nor broadcast.
pub open spec fn endpoint_valid(socket: TcpSocket, local_owned: bool) -> bool {
    &&& socket.local_port != 0
    &&& socket.remote_port != 0
    &&& local_owned
    &&& socket.remote_address.0 != 0
    &&& !(0xe000_0000 <= socket.remote_address.0 <= 0xefff_ffff)
    &&& socket.remote_address.0 != 0xffff_ffff
}

/// The initial sequence number handed to the next connection.
pub open spec fn next_initial_sequence(v: RuntimeView) -> u32 {
    wrapping_add(v.next_sequence, SEQUENCE_STEP)
}

/// The runtime and result of an active open from `socket`: the `SYN` to transmit.
pub open spec fn connect_spec(v: RuntimeView, socket: TcpSocket, local_owned: bool, now: u64) -> (
    RuntimeView,
    Result<SegmentView, TcpError>,
) {
    if !endpoint_valid(socket, local_owned) {
        (v, Err(TcpError::Endpoint))
    } else if holds_socket(v.connections, socket) {
        (v, Err(TcpError::State))
    } else if v.connections.len() >= MAX_CONNECTIONS {
        (v, Err(TcpError::Capacity))
    } else {
        let sequence = next_initial_sequence(v);
        let opened = send_spec(
            ConnectionView { state: TcpState::SynSent, ..fresh(sequence, now) },
            socket,
            SYN,
            Seq::empty(),
            now,
        );
        (
            RuntimeView {
                connections: insert_connection(v.connections, socket, opened.0),
                next_sequence: sequence,
                ..v
            },
            Ok(opened.1),
        )
    }
}

/// A segment-or-error result as a mathematical value.
pub open spec fn result_view(r: Result<TcpSegment, TcpError>) -> Result<SegmentView, TcpError> {
    match r {
        Ok(s) => Ok(s@),
        Err(e) => Err(e),
    }
}

/// The runtime with the connection listed at `i` replaced.
pub open spec fn with_connection(v: RuntimeView, i: int, c: ConnectionView) -> RuntimeView {
    RuntimeView { connections: v.connections.update(i, (v.connections[i].0, c)), ..v }
}

/// The runtime and result of sending `payload` on `socket`: one data segment at a time,
/// within the peer's window.
pub open spec fn transmit_spec(v: RuntimeView, socket: TcpSocket, payload: Seq<u8>, now: u64) -> (
    RuntimeView,
    Result<SegmentView, TcpError>,
) {
    if payload.len() == 0 || payload.len() > MAX_PAYLOAD {
        (v, Err(TcpError::Capacity))
    } else if !holds_socket(v.connections, socket) {
        (v, Err(TcpError::Missing))
    } else {
        let i = socket_index(v.connections, socket);
        let c = v.connections[i].1;
        if !(c.state == TcpState::Established || c.state == TcpState::CloseWait) {
            (v, Err(TcpError::State))
        } else if c.outstanding is Some || payload.len() > c.peer_window {
            (v, Err(TcpError::Busy))
        } else {
            let sent = send_spec(c, socket, ACK | PSH, payload, now);
            (with_connection(v, i, sent.0), Ok(sent.1))
        }
    }
}

/// The runtime and result of closing `socket` once its data is acknowledged: the `FIN`.
pub open spec fn close_spec(v: RuntimeView, socket: TcpSocket, now: u64) -> (
    RuntimeView,
    Result<SegmentView, TcpError>,
) {
    if !holds_socket(v.connections, socket) {
        (v, Err(TcpError::Missing))
    } else {
        let i = socket_index(v.connections, socket);
        let c = v.connections[i].1;
        if c.outstanding is Some {
            (v, Err(TcpError::Busy))
        } else if c.state == TcpState::Established || c.state == TcpState::CloseWait {
            let closing = ConnectionView {
                state: if c.state == TcpState::Established {
                    TcpState::FinWait
                } else {
                    TcpState::LastAck
                },
                ..c
            };
            let sent = send_spec(closing, socket, ACK | FIN, Seq::empty(), now);
            (with_connection(v, i, sent.0), Ok(sent.1))
        } else {
            (v, Err(TcpError::State))
        }
    }
}

/// The runtime and result of draining the bytes received on `socket`: the bytes and a
/// window update for the peer.
pub open spec fn read_spec(v: RuntimeView, socket: TcpSocket) -> (
    RuntimeView,
    Result<(Seq<u8>, SegmentView), TcpError>,
) {
    if !holds_socket(v.connections, socket) {
        (v, Err(TcpError::Missing))
    } else {
        let i = socket_index(v.connections, socket);
        let c = v.connections[i].1;
        let drained = ConnectionView { received: Seq::empty(), ..c };
        (with_connection(v, i, drained), Ok((c.received, emitted(drained, socket, ACK, Seq::empty()))))
    }
}

/// The socket of an incoming segment from `source` to `destination`, seen from this side.
pub open spec fn incoming_socket(source: Ipv4Addr, destination: Ipv4Addr, s: SegmentView) -> TcpSocket {
    TcpSocket {
        local_address: destination,
        local_port: s.destination_port,
        remote_address: source,
        remote_port: s.source_port,
    }
}

/// The reset answering a segment that belongs to no connection: it takes its sequence
/// number from the segment's acknowledgment or, lacking one, acknowledges the segment.
pub open spec fn reset_for(socket: TcpSocket, s: SegmentView, now: u64) -> SegmentView {
    let base = emitted(fresh(0, now), socket, RST, Seq::empty());
    if has_flags(s.flags, ACK) {
        SegmentView { sequence: s.acknowledgment, ..base }
    } else {
        SegmentView {
            flags: RST | ACK,
            acknowledgment: wrapping_add(s.sequence, sequence_len(s) as u32),
            ..base
        }
    }
}

/// The runtime and reply after a segment from `source` arrives for `destination`;
/// `local_owned` tells whether the device owns `destination`. A segment for a known
/// connection goes to it; a bare `SYN` to a listening port opens a connection; anything
/// else but a reset is answered with a reset.
pub open spec fn arrive_spec(
    v: RuntimeView,
    source: Ipv4Addr,
    destination: Ipv4Addr,
    s: SegmentView,
    local_owned: bool,
    now: u64,
) -> (RuntimeView, Option<SegmentView>) {
    let socket = incoming_socket(source, destination, s);
    if !local_owned {
        (v, None)
    } else if holds_socket(v.connections, socket) {
        let i = socket_index(v.connections, socket);
        let step = receive_spec(v.connections[i].1, socket, s, now);
        (with_connection(v, i, step.0), step.1)
    } else if has_flags(s.flags, RST) {
        (v, None)
    } else if s.flags == SYN && v.listeners.contains(socket.local_port) && v.connections.len()
        < MAX_CONNECTIONS {
        let sequence = next_initial_sequence(v);
        let accepted = send_spec(
            ConnectionView {
                state: TcpState::SynReceived,
                receive_next: wrapping_add(s.sequence, 1),
                peer_window: s.window,
                ..fresh(sequence, now)
            },
            socket,
            SYN | ACK,
            Seq::empty(),
            now,
        );
        (
            RuntimeView {
                connections: insert_connection(v.connections, socket, accepted.0),
                next_sequence: sequence,
                ..v
            },
            Some(accepted.1),
        )
    } else {
        (v, Some(reset_for(socket, s, now)))
    }
}

/// The connections that survive a tick at `now`, each after its retransmission check, and
/// the segments sent again, in listing order.
pub open spec fn tick_spec(conns: Seq<(TcpSocket, ConnectionView)>, now: u64) -> (
    Seq<(TcpSocket, ConnectionView)>,
    Seq<(TcpSocket, SegmentView)>,
)
    decreases conns.len(),
{
    if conns.len() == 0 {
        (Seq::empty(), Seq::empty())
    } else {
        let earlier = tick_spec(conns.drop_last(), now);
        let (socket, c) = conns.last();
        if !lingers(c, now) {
            earlier
        } else {
            let step = retransmit_step(c, now);
            (
                earlier.0.push((socket, step.0)),
                match step.1 {
                    Some(segment) => earlier.1.push((socket, segment)),
                    None => earlier.1,
                },
            )
        }
    }
}

/// Connections whose retransmission counters can still be incremented.
pub open spec fn counters_below_max(conns: Seq<(TcpSocket, ConnectionView)>) -> bool {
    forall|i: int| 0 <= i < conns.len() ==> (#[trigger] conns[i]).1.retransmissions < u64::MAX
}

/// Addressed segments as mathematical values.
pub open spec fn outgoing_view(v: Seq<(TcpSocket, TcpSegment)>) -> Seq<(TcpSocket, SegmentView)> {
    v.map_values(|e: (TcpSocket, TcpSegment)| (e.0, e.1@))
}

/// Listed connections as mathematical values.
pub open spec fn listing_view(v: Seq<(TcpSocket, TcpConnection)>) -> Seq<(TcpSocket, ConnectionView)> {
    v.map_values(|e: (TcpSocket, TcpConnection)| (e.0, e.1@))
}

/// In an ordered listing without `socket`, some position splits the listing around it.
proof fn lemma_insertion_point_exists(conns: Seq<(TcpSocket, ConnectionView)>, socket: TcpSocket)
    requires
        sockets_sorted(conns),
        !holds_socket(conns, socket),
    ensures
        splits_at(conns, socket, insertion_point(conns, socket)),
    decreases conns.len(),
{
    if conns.len() == 0 {
        assert(splits_at(conns, socket, 0));
    } else {
        let init = conns.drop_last();
        assert forall|a: int, b: int| 0 <= a < b < init.len() implies socket_before(
            #[trigger] init[a].0,
            #[trigger] init[b].0,
        ) by {
            assert(init[a] == conns[a] && init[b] == conns[b]);
        }
        assert(!holds_socket(init, socket)) by {
            if holds_socket(init, socket) {
                let k = choose|k: int| 0 <= k < init.len() && #[trigger] init[k].0 == socket;
                assert(conns[k].0 == socket);
            }
        }
        lemma_insertion_point_exists(init, socket);
        let j = insertion_point(init, socket);
        let last = conns[conns.len() - 1].0;
        assert(last != socket);
        lemma_before_strict(last, socket);
        if socket_before(last, socket) {
            assert forall|i: int| 0 <= i < conns.len() implies socket_before(
                #[trigger] conns[i].0,
                socket,
            ) by {
                if i < conns.len() - 1 {
                    assert(socket_before(conns[i].0, last));
                    lemma_before_transitive(conns[i].0, last, socket);
                }
            }
            assert(splits_at(conns, socket, conns.len() as int));
        } else {
            assert forall|i: int| 0 <= i < j implies socket_before(#[trigger] conns[i].0, socket) by {
                assert(init[i] == conns[i]);
            }
            assert forall|i: int| j <= i < conns.len() implies socket_before(
                socket,
                #[trigger] conns[i].0,
            ) by {
                if i < conns.len() - 1 {
                    assert(init[i] == conns[i]);
                }
            }
            assert(splits_at(conns, socket, j));
        }
    }
}

proof fn lemma_split_unique(conns: Seq<(TcpSocket, ConnectionView)>, socket: TcpSocket, j: int)
    requires
        splits_at(conns, socket, j),
    ensures
        insertion_point(conns, socket) == j,
{
    let k = insertion_point(conns, socket);
    assert(splits_at(conns, socket, k));
    if k < j {
        assert(socket_before(conns[k].0, socket));
        assert(socket_before(socket, conns[k].0));
        lemma_before_strict(socket, conns[k].0);
    } else if j < k {
        assert(socket_before(conns[j].0, socket));
        assert(socket_before(socket, conns[j].0));
        lemma_before_strict(socket, conns[j].0);
    }
}

proof fn lemma_insert_sorted(
    conns: Seq<(TcpSocket, ConnectionView)>,
    socket: TcpSocket,
    c: ConnectionView,
    j: int,
)
    requires
        sockets_sorted(conns),
        splits_at(conns, socket, j),
    ensures
        sockets_sorted(conns.insert(j, (socket, c))),
{
    let n = conns.insert(j, (socket, c));
    assert forall|a: int, b: int| 0 <= a < b < n.len() implies socket_before(
        #[trigger] n[a].0,
        #[trigger] n[b].0,
    ) by {
        if a < j && b < j {
            assert(n[a] == conns[a] && n[b] == conns[b]);
        } else if a < j && b == j {
            assert(n[a] == conns[a]);
        } else if a < j {
            assert(n[a] == conns[a] && n[b] == conns[b - 1]);
        } else if a == j {
            assert(n[b] == conns[b - 1]);
        } else {
            assert(n[a] == conns[a - 1] && n[b] == conns[b - 1]);
        }
    }
}

proof fn lemma_update_sorted(
    conns: Seq<(TcpSocket, ConnectionView)>,
    i: int,
    c: ConnectionView,
)
    requires
        sockets_sorted(conns),
        0 <= i < conns.len(),
    ensures
        sockets_sorted(conns.update(i, (conns[i].0, c))),
{
    let n = conns.update(i, (conns[i].0, c));
    assert forall|a: int, b: int| 0 <= a < b < n.len() implies socket_before(
        #[trigger] n[a].0,
        #[trigger] n[b].0,
    ) by {
        assert(n[a].0 == conns[a].0 && n[b].0 == conns[b].0);
    }
}

proof fn lemma_before_strict(a: TcpSocket, b: TcpSocket)
    ensures
        !(socket_before(a, b) && socket_before(b, a)),
        a != b ==> socket_before(a, b) || socket_before(b, a),
        !socket_before(a, a),
{
}

proof fn lemma_before_transitive(a: TcpSocket, b: TcpSocket, c: TcpSocket)
    requires
        socket_before(a, b),
        socket_before(b, c),
    ensures
        socket_before(a, c),
{
}

/// In an ordered listing, the connection found at `i` is the one for its socket.
proof fn lemma_index_unique(conns: Seq<(TcpSocket, ConnectionView)>, i: int)
    requires
        sockets_sorted(conns),
        0 <= i < conns.len(),
    ensures
        holds_socket(conns, conns[i].0),
        socket_index(conns, conns[i].0) == i,
{
    let s = conns[i].0;
    assert(holds_socket(conns, s));
    let k = socket_index(conns, s);
    if k != i {
        if k < i {
            assert(socket_before(conns[k].0, conns[i].0));
        } else {
            assert(socket_before(conns[i].0, conns[k].0));
        }
        lemma_before_strict(s, s);
    }
}

fn before(a: TcpSocket, b: TcpSocket) -> (r: bool)
    ensures
        r == socket_before(a, b),
{
    if a.local_address.0 != b.local_address.0 {
        return a.local_address.0 < b.local_address.0;
    }
    if a.local_port != b.local_port {
        return a.local_port < b.local_port;
    }
    if a.remote_address.0 != b.remote_address.0 {
        return a.remote_address.0 < b.remote_address.0;
    }
    a.remote_port < b.remote_port
}

fn same_socket(a: TcpSocket, b: TcpSocket) -> (r: bool)
    ensures
        r == (a == b),
{
    a.local_address.0 == b.local_address.0 && a.local_port == b.local_port
        && a.remote_address.0 == b.remote_address.0 && a.remote_port == b.remote_port
}

impl TcpRuntime {
    /// A runtime with no connections and no listeners.
    pub fn new() -> (r: TcpRuntime)
        ensures
            r@ == (RuntimeView {
                connections: Seq::empty(),
                listeners: Seq::empty(),
                next_sequence: 0,
            }),
            runtime_wf(r@),
    {
        let r = TcpRuntime { connections: Vec::new(), listeners: Vec::new(), next_sequence: 0 };
        assert(r@.connections =~= Seq::empty());
        r
    }

    /// Where the connection for `socket` is listed, if it exists.
    fn find(&self, socket: TcpSocket) -> (r: Option<usize>)
        requires
            runtime_wf(self@),
        ensures
            match r {
                Some(i) => i < self@.connections.len() && holds_socket(self@.connections, socket)
                    && socket_index(self@.connections, socket) == i && self@.connections[i as int].0
                    == socket,
                None => !holds_socket(self@.connections, socket),
            },
    {
        let mut i: usize = 0;
        while i < self.connections.len()
            invariant
                runtime_wf(self@),
                i <= self.connections@.len(),
                self@.connections.len() == self.connections@.len(),
                forall|k: int| 0 <= k < i ==> self@.connections[k].0 != socket,
            decreases self.connections@.len() - i,
        {
            assert(self@.connections[i as int].0 == self.connections@[i as int].0);
            if same_socket(self.connections[i].0, socket) {
                proof {
                    lemma_index_unique(self@.connections, i as int);
                }
                return Some(i);
            }
            i = i + 1;
        }
        None
    }

    /// Take the connection listed at `i` out of the listing.
    fn take_connection(&mut self, i: usize) -> (r: (TcpSocket, TcpConnection))
        requires
            i < old(self)@.connections.len(),
        ensures
            r.0 == old(self)@.connections[i as int].0,
            r.1@ == old(self)@.connections[i as int].1,
            final(self)@ == (RuntimeView {
                connections: old(self)@.connections.remove(i as int),
                ..old(self)@
            }),
    {
        let r = self.connections.remove(i);
        assert(self@.connections =~= old(self)@.connections.remove(i as int));
        r
    }

    /// List `c` for `socket` at position `i`.
    fn place_connection(&mut self, i: usize, socket: TcpSocket, c: TcpConnection)
        requires
            i <= old(self)@.connections.len(),
        ensures
            final(self)@ == (RuntimeView {
                connections: old(self)@.connections.insert(i as int, (socket, c@)),
                ..old(self)@
            }),
    {
        let ghost cv = c@;
        self.connections.insert(i, (socket, c));
        assert(self@.connections =~= old(self)@.connections.insert(i as int, (socket, cv)));
    }

    /// Where a connection for a socket that has none is inserted.
    fn insertion_index(&self, socket: TcpSocket) -> (j: usize)
        requires
            runtime_wf(self@),
            !holds_socket(self@.connections, socket),
        ensures
            j as int == insertion_point(self@.connections, socket),
            splits_at(self@.connections, socket, j as int),
    {
        let ghost conns = self@.connections;
        let mut j: usize = 0;
        while j < self.connections.len() && before(self.connections[j].0, socket)
            invariant
                conns == self@.connections,
                runtime_wf(self@),
                !holds_socket(conns, socket),
                j <= self.connections@.len(),
                conns.len() == self.connections@.len(),
                forall|k: int| 0 <= k < conns.len() ==> #[trigger] conns[k].0 == self.connections@[k].0,
                forall|i: int| 0 <= i < j ==> socket_before(#[trigger] conns[i].0, socket),
            decreases self.connections@.len() - j,
        {
            j = j + 1;
        }
        proof {
            if j < conns.len() {
                assert(conns[j as int].0 != socket);
                lemma_before_strict(conns[j as int].0, socket);
                assert forall|i: int| j <= i < conns.len() implies socket_before(
                    socket,
                    #[trigger] conns[i].0,
                ) by {
                    if i > j {
                        assert(socket_before(conns[j as int].0, conns[i].0));
                        lemma_before_transitive(socket, conns[j as int].0, conns[i].0);
                    }
                }
            }
            assert(splits_at(conns, socket, j as int));
            lemma_split_unique(conns, socket, j as int);
        }
        j
    }

    /// Hand out the next initial sequence number.
    fn initial_sequence(&mut self) -> (r: u32)
        ensures
            r == next_initial_sequence(old(self)@),
            final(self)@ == (RuntimeView { next_sequence: r, ..old(self)@ }),
    {
        self.next_sequence = self.next_sequence.wrapping_add(SEQUENCE_STEP);
        self.next_sequence
    }

    /// Begin an active open from `socket` and return its `SYN`. `local_owned` tells whether
    /// the device owns the socket's local address.
    pub fn tcp_connect(&mut self, socket: TcpSocket, local_owned: bool, now: u64) -> (r: Result<
        TcpSegment,
        TcpError,
    >)
        requires
            runtime_wf(old(self)@),
        ensures
            runtime_wf(final(self)@),
            (final(self)@, result_view(r)) == connect_spec(old(self)@, socket, local_owned, now),
    {
        if socket.local_port == 0 || socket.remote_port == 0 || !local_owned
            || socket.remote_address.is_unspecified() || socket.remote_address.is_multicast()
            || socket.remote_address.is_broadcast() {
            return Err(TcpError::Endpoint);
        }
        if self.find(socket).is_some() {
            return Err(TcpError::State);
        }
        if self.connections.len() >= MAX_CONNECTIONS {
            return Err(TcpError::Capacity);
        }
        let sequence = self.initial_sequence();
        let mut connection = TcpConnection::new(sequence, now);
        connection.state = TcpState::SynSent;
        let empty: Vec<u8> = Vec::new();
        assert(empty@ =~= Seq::<u8>::empty());
        let syn = connection.send(socket, SYN, empty, now);
        self.add_connection(socket, connection);
        Ok(syn)
    }

    /// List `c` again at `i`, where `take_connection` removed the connection of `before`.
    fn restore_connection(
        &mut self,
        i: usize,
        socket: TcpSocket,
        c: TcpConnection,
        Ghost(before): Ghost<RuntimeView>,
    )
        requires
            runtime_wf(before),
            i < before.connections.len(),
            socket == before.connections[i as int].0,
            old(self)@ == (RuntimeView {
                connections: before.connections.remove(i as int),
                ..before
            }),
            connection_wf(c@),
        ensures
            runtime_wf(final(self)@),
            final(self)@ == with_connection(before, i as int, c@),
    {
        self.place_connection(i, socket, c);
        proof {
            let n = self@.connections;
            assert(n =~= before.connections.update(i as int, (socket, c@)));
            lemma_update_sorted(before.connections, i as int, c@);
            assert forall|k: int| 0 <= k < n.len() implies connection_wf(#[trigger] n[k].1) by {
                if k != i {
                    assert(n[k] == before.connections[k]);
                }
            }
        }
    }

    /// Send one segment of `payload` on `socket`; until it is acknowledged further sends are
    /// refused, and the application keeps the bytes not yet sent.
    pub fn tcp_send(&mut self, socket: TcpSocket, payload: &[u8], now: u64) -> (r: Result<
        TcpSegment,
        TcpError,
    >)
        requires
            runtime_wf(old(self)@),
        ensures
            runtime_wf(final(self)@),
            (final(self)@, result_view(r)) == transmit_spec(old(self)@, socket, payload@, now),
    {
        if payload.len() == 0 || payload.len() > MAX_PAYLOAD {
            return Err(TcpError::Capacity);
        }
        let i = match self.find(socket) {
            Some(i) => i,
            None => return Err(TcpError::Missing),
        };
        assert(self@.connections[i as int].1 == self.connections@[i as int].1@);
        let state = self.connections[i].1.state;
        if !matches!(state, TcpState::Established | TcpState::CloseWait) {
            return Err(TcpError::State);
        }
        if self.connections[i].1.outstanding.is_some() || payload.len()
            > self.connections[i].1.peer_window as usize {
            return Err(TcpError::Busy);
        }
        let ghost before = self@;
        let (s, mut c) = self.take_connection(i);
        let data = copy_range(payload, 0, payload.len());
        assert(data@ =~= payload@);
        let segment = c.send(socket, ACK | PSH, data, now);
        self.restore_connection(i, s, c, Ghost(before));
        Ok(segment)
    }

    /// Begin closing `socket` with a `FIN` once its pending data is acknowledged.
    pub fn tcp_close(&mut self, socket: TcpSocket, now: u64) -> (r: Result<TcpSegment, TcpError>)
        requires
            runtime_wf(old(self)@),
        ensures
            runtime_wf(final(self)@),
            (final(self)@, result_view(r)) == close_spec(old(self)@, socket, now),
    {
        let i = match self.find(socket) {
            Some(i) => i,
            None => return Err(TcpError::Missing),
        };
        assert(self@.connections[i as int].1 == self.connections@[i as int].1@);
        if self.connections[i].1.outstanding.is_some() {
            return Err(TcpError::Busy);
        }
        let next = match self.connections[i].1.state {
            TcpState::Established => TcpState::FinWait,
            TcpState::CloseWait => TcpState::LastAck,
            _ => return Err(TcpError::State),
        };
        let ghost before = self@;
        let (s, mut c) = self.take_connection(i);
        c.state = next;
        let empty: Vec<u8> = Vec::new();
        assert(empty@ =~= Seq::<u8>::empty());
        let segment = c.send(socket, ACK | FIN, empty, now);
        self.restore_connection(i, s, c, Ghost(before));
        Ok(segment)
    }

    /// Drain the bytes received on `socket` and return them with a window update for the peer.
    pub fn tcp_read(&mut self, socket: TcpSocket) -> (r: Result<(Vec<u8>, TcpSegment), TcpError>)
        requires
            runtime_wf(old(self)@),
        ensures
            runtime_wf(final(self)@),
            final(self)@ == read_spec(old(self)@, socket).0,
            match r {
                Ok((data, s)) => read_spec(old(self)@, socket).1 == Ok::<
                    (Seq<u8>, SegmentView),
                    TcpError,
                >((data@, s@)),
                Err(e) => read_spec(old(self)@, socket).1 == Err::<(Seq<u8>, SegmentView), TcpError>(
                    e,
                ),
            },
    {
        let i = match self.find(socket) {
            Some(i) => i,
            None => return Err(TcpError::Missing),
        };
        let ghost before = self@;
        let (s, mut c) = self.take_connection(i);
        let data = c.drain_received();
        let empty: Vec<u8> = Vec::new();
        assert(empty@ =~= Seq::<u8>::empty());
        let update = c.segment(socket, ACK, empty);
        self.restore_connection(i, s, c, Ghost(before));
        Ok((data, update))
    }

    /// List a new connection for a socket that has none, keeping the listing in order.
    fn add_connection(&mut self, socket: TcpSocket, c: TcpConnection)
        requires
            runtime_wf(old(self)@),
            !holds_socket(old(self)@.connections, socket),
            connection_wf(c@),
        ensures
            runtime_wf(final(self)@),
            final(self)@ == (RuntimeView {
                connections: insert_connection(old(self)@.connections, socket, c@),
                ..old(self)@
            }),
    {
        let j = self.insertion_index(socket);
        proof {
            lemma_insert_sorted(old(self)@.connections, socket, c@, j as int);
        }
        self.place_connection(j, socket, c);
        proof {
            let n = self@.connections;
            assert forall|i: int| 0 <= i < n.len() implies connection_wf(#[trigger] n[i].1) by {
                if i < j {
                    assert(n[i] == old(self)@.connections[i]);
                } else if i > j {
                    assert(n[i] == old(self)@.connections[i - 1]);
                }
            }
        }
    }

    /// Whether `port` has a listener.
    fn listens(&self, port: u16) -> (r: bool)
        ensures
            r == self@.listeners.contains(port),
    {
        let mut i: usize = 0;
        while i < self.listeners.len()
            invariant
                i <= self.listeners@.len(),
                self@.listeners == self.listeners@,
                forall|k: int| 0 <= k < i ==> self.listeners@[k] != port,
            decreases self.listeners@.len() - i,
        {
            if self.listeners[i] == port {
                assert(self@.listeners[i as int] == port);
                return true;
            }
            i = i + 1;
        }
        false
    }

    /// Process a segment from `source` addressed to `destination` and return at most one
    /// reply. `local_owned` tells whether the device owns `destination`.
    pub fn receive_tcp(
        &mut self,
        source: Ipv4Addr,
        destination: Ipv4Addr,
        segment: TcpSegment,
        local_owned: bool,
        now: u64,
    ) -> (r: Option<TcpSegment>)
        requires
            runtime_wf(old(self)@),
            segment.payload@.len() <= u16::MAX,
        ensures
            runtime_wf(final(self)@),
            final(self)@ == arrive_spec(old(self)@, source, destination, segment@, local_owned, now).0,
            match r {
                Some(reply) => arrive_spec(old(self)@, source, destination, segment@, local_owned, now).1
                    == Some(reply@),
                None => arrive_spec(old(self)@, source, destination, segment@, local_owned, now).1 is None,
            },
    {
        if !local_owned {
            return None;
        }
        let socket = TcpSocket {
            local_address: destination,
            local_port: segment.destination_port,
            remote_address: source,
            remote_port: segment.source_port,
        };
        if let Some(i) = self.find(socket) {
            let ghost before = self@;
            let (s, mut c) = self.take_connection(i);
            let reply = c.receive(socket, segment, now);
            self.restore_connection(i, s, c, Ghost(before));
            return reply;
        }
        if segment.contains(RST) {
            return None;
        }
        if segment.flags == SYN && self.listens(socket.local_port) && self.connections.len()
            < MAX_CONNECTIONS {
            let sequence = self.initial_sequence();
            let mut c = TcpConnection::new(sequence, now);
            c.state = TcpState::SynReceived;
            c.receive_next = segment.sequence.wrapping_add(1);
            c.peer_window = segment.window;
            let empty: Vec<u8> = Vec::new();
            assert(empty@ =~= Seq::<u8>::empty());
            let reply = c.send(socket, SYN | ACK, empty, now);
            self.add_connection(socket, c);
            return Some(reply);
        }
        let empty: Vec<u8> = Vec::new();
        assert(empty@ =~= Seq::<u8>::empty());
        let mut reset = TcpConnection::new(0, now).segment(socket, RST, empty);
        if segment.contains(ACK) {
            reset.sequence = segment.acknowledgment;
        } else {
            reset.flags = RST | ACK;
            reset.acknowledgment = segment.sequence.wrapping_add(segment.sequence_len());
        }
        Some(reset)
    }

    /// Drop closed, idle and expired connections, and resend each segment whose
    /// acknowledgment is overdue; return the segments resent, with their sockets.
    pub fn tcp_tick(&mut self, now: u64) -> (r: Vec<(TcpSocket, TcpSegment)>)
        requires
            runtime_wf(old(self)@),
            counters_below_max(old(self)@.connections),
        ensures
            runtime_wf(final(self)@),
            final(self)@ == (RuntimeView {
                connections: tick_spec(old(self)@.connections, now).0,
                ..old(self)@
            }),
            outgoing_view(r@) == tick_spec(old(self)@.connections, now).1,
    {
        let ghost orig = self@.connections;
        let mut rest: Vec<(TcpSocket, TcpConnection)> = Vec::new();
        std::mem::swap(&mut rest, &mut self.connections);
        let mut kept: Vec<(TcpSocket, TcpConnection)> = Vec::new();
        let mut out: Vec<(TcpSocket, TcpSegment)> = Vec::new();
        let ghost mut i: int = 0;
        assert(listing_view(rest@) =~= orig.subrange(0, orig.len() as int));
        assert(orig.take(0) =~= Seq::<(TcpSocket, ConnectionView)>::empty());
        assert(listing_view(kept@) =~= Seq::<(TcpSocket, ConnectionView)>::empty());
        assert(outgoing_view(out@) =~= Seq::<(TcpSocket, SegmentView)>::empty());
        while rest.len() > 0
            invariant
                runtime_wf(old(self)@),
                orig == old(self)@.connections,
                counters_below_max(orig),
                0 <= i <= orig.len(),
                listing_view(rest@) == orig.subrange(i, orig.len() as int),
                (listing_view(kept@), outgoing_view(out@)) == tick_spec(orig.take(i), now),
                sockets_sorted(listing_view(kept@)),
                forall|k: int| 0 <= k < kept@.len() ==> connection_wf(#[trigger] kept@[k].1@),
                forall|k: int, m: int|
                    0 <= k < kept@.len() && i <= m < orig.len() ==> socket_before(
                        #[trigger] kept@[k].0,
                        #[trigger] orig[m].0,
                    ),
            decreases rest@.len(),
        {
            let ghost prev_rest = listing_view(rest@);
            assert(prev_rest.len() == rest@.len());
            assert(prev_rest[0] == orig.subrange(i, orig.len() as int)[0]);
            assert(prev_rest[0] == orig[i]);
            let (socket, mut c) = rest.remove(0);
            assert(listing_view(rest@) =~= prev_rest.subrange(1, prev_rest.len() as int));
            let ghost prev_kept = listing_view(kept@);
            let ghost prev_out = outgoing_view(out@);
            assert(orig.take(i + 1).drop_last() =~= orig.take(i));
            assert(orig.take(i + 1).last() == orig[i]);
            assert(c@.retransmissions < u64::MAX);
            if c.lingers(now) {
                let again = c.retransmit_due(now);
                kept.push((socket, c));
                assert(listing_view(kept@) =~= prev_kept.push((socket, c@)));
                match again {
                    Some(segment) => {
                        out.push((socket, segment));
                        assert(outgoing_view(out@) =~= prev_out.push((socket, segment@)));
                    },
                    None => {},
                }
                proof {
                    let kv = listing_view(kept@);
                    assert forall|a: int, b: int| 0 <= a < b < kv.len() implies socket_before(
                        #[trigger] kv[a].0,
                        #[trigger] kv[b].0,
                    ) by {
                        if b == kv.len() - 1 {
                            assert(kept@[a].0 == kv[a].0);
                            assert(socket_before(kept@[a].0, orig[i].0));
                        } else {
                            assert(kv[a] == prev_kept[a] && kv[b] == prev_kept[b]);
                        }
                    }
                    assert forall|k: int, m: int|
                        0 <= k < kept@.len() && i + 1 <= m < orig.len() implies socket_before(
                        #[trigger] kept@[k].0,
                        #[trigger] orig[m].0,
                    ) by {
                        if k == kept@.len() - 1 {
                            assert(socket_before(orig[i].0, orig[m].0));
                        }
                    }
                }
            } else {
                assert(orig.take(i + 1).drop_last() =~= orig.take(i));
            }
            proof {
                i = i + 1;
                assert(listing_view(rest@) =~= orig.subrange(i, orig.len() as int));
            }
        }
        assert(orig.take(i) =~= orig);
        self.connections = kept;
        out
    }

    /// The connections, in ascending socket order.
    pub fn tcp_connections(&self) -> (r: &[(TcpSocket, TcpConnection)])
        ensures
            listing_view(r@) == self@.connections,
    {
        self.connections.as_slice()
    }

    /// The connection for `socket`, if it exists.
    pub fn connection(&self, socket: TcpSocket) -> (r: Option<&TcpConnection>)
        requires
            runtime_wf(self@),
        ensures
            match r {
                Some(c) => holds_socket(self@.connections, socket) && c@ == self@.connections[socket_index(
                    self@.connections,
                    socket,
                )].1,
                None => !holds_socket(self@.connections, socket),
            },
    {
        match self.find(socket) {
            Some(i) => {
                assert(self@.connections[i as int].1 == self.connections@[i as int].1@);
                Some(&self.connections[i].1)
            },
            None => None,
        }
    }

    /// Open a simulated listener on `port`.
    pub fn tcp_listen(&mut self, port: u16) -> (r: Result<(), TcpError>)
        requires
            runtime_wf(old(self)@),
        ensures
            runtime_wf(final(self)@),
            (final(self)@, r) == listen_spec(old(self)@, port),
    {
        if port == 0 {
            return Err(TcpError::Endpoint);
        }
        let mut i: usize = 0;
        while i < self.listeners.len()
            invariant
                self@ == old(self)@,
                runtime_wf(self@),
                port != 0,
                i <= self.listeners@.len(),
                forall|k: int| 0 <= k < i ==> self.listeners@[k] != port,
            decreases self.listeners@.len() - i,
        {
            if self.listeners[i] == port {
                assert(self@.listeners[i as int] == port);
                return Ok(());
            }
            i = i + 1;
        }
        if self.listeners.len() >= MAX_LISTENERS {
            return Err(TcpError::Capacity);
        }
        self.listeners.push(port);
        proof {
            assert(self@.connections == old(self)@.connections);
        }
        Ok(())
    }
}

proof fn lemma_flag_constants()
    ensures
        has_flags(SYN | ACK, SYN),
        has_flags(SYN | ACK, ACK),
        !has_flags(SYN | ACK, RST),
        !has_flags(SYN | ACK, FIN),
        !has_flags(SYN, ACK),
        !has_flags(SYN, RST),
        has_flags(RST, RST),
        has_flags(RST | ACK, RST),
        has_flags(ACK | PSH, ACK),
        !has_flags(ACK | PSH, SYN),
        !has_flags(ACK | PSH, FIN),
{
    assert(0x02u8 | 0x10u8 == 0x12u8) by (bit_vector);
    assert(0x04u8 | 0x10u8 == 0x14u8) by (bit_vector);
    assert(0x10u8 | 0x08u8 == 0x18u8) by (bit_vector);
    assert(0x12u8 & 0x02u8 == 0x02u8) by (bit_vector);
    assert(0x12u8 & 0x10u8 == 0x10u8) by (bit_vector);
    assert(0x12u8 & 0x04u8 == 0u8) by (bit_vector);
    assert(0x12u8 & 0x01u8 == 0u8) by (bit_vector);
    assert(0x02u8 & 0x10u8 == 0u8) by (bit_vector);
    assert(0x02u8 & 0x04u8 == 0u8) by (bit_vector);
    assert(0x04u8 & 0x04u8 == 0x04u8) by (bit_vector);
    assert(0x14u8 & 0x04u8 == 0x04u8) by (bit_vector);
    assert(0x18u8 & 0x10u8 == 0x10u8) by (bit_vector);
    assert(0x18u8 & 0x02u8 == 0u8) by (bit_vector);
    assert(0x18u8 & 0x01u8 == 0u8) by (bit_vector);
}

/// A reset arriving at a device is never answered, whether or not a connection exists.
pub proof fn lemma_runtime_reset_unanswered(
    v: RuntimeView,
    source: Ipv4Addr,
    destination: Ipv4Addr,
    s: SegmentView,
    local_owned: bool,
    now: u64,
)
    requires
        runtime_wf(v),
        has_flags(s.flags, RST),
    ensures
        arrive_spec(v, source, destination, s, local_owned, now).1 is None,
{
    let socket = incoming_socket(source, destination, s);
    if local_owned && holds_socket(v.connections, socket) {
        let i = socket_index(v.connections, socket);
        lemma_reset_never_answered(v.connections[i].1, socket, s, now);
    }
}

/// A segment that belongs to no connection and is not a reset is always answered: a bare
/// `SYN` to a listening port with room opens a connection and is answered with a `SYN`+`ACK`
/// acknowledging it; anything else is answered with a reset.
pub proof fn lemma_unknown_segment_answered(
    v: RuntimeView,
    source: Ipv4Addr,
    destination: Ipv4Addr,
    s: SegmentView,
    now: u64,
)
    requires
        runtime_wf(v),
        !holds_socket(v.connections, incoming_socket(source, destination, s)),
        !has_flags(s.flags, RST),
    ensures
        arrive_spec(v, source, destination, s, true, now).1 is Some,
        ({
            let reply = arrive_spec(v, source, destination, s, true, now).1->Some_0;
            if s.flags == SYN && v.listeners.contains(s.destination_port) && v.connections.len()
                < MAX_CONNECTIONS {
                &&& reply.flags == SYN | ACK
                &&& reply.acknowledgment == wrapping_add(s.sequence, 1)
                &&& reply.sequence == next_initial_sequence(v)
            } else {
                has_flags(reply.flags, RST)
            }
        }),
{
    lemma_flag_constants();
}

/// Reading drains the receive buffer: the first read returns the bytes received so far,
/// and a second read right after it returns none.
pub proof fn lemma_read_drains(v: RuntimeView, socket: TcpSocket)
    requires
        runtime_wf(v),
        holds_socket(v.connections, socket),
    ensures
        read_spec(v, socket).1 matches Ok((data, _)) && data == v.connections[socket_index(
            v.connections,
            socket,
        )].1.received,
        read_spec(read_spec(v, socket).0, socket).1 matches Ok((data, _)) && data.len() == 0,
{
    let i = socket_index(v.connections, socket);
    let c = v.connections[i].1;
    let drained = ConnectionView { received: Seq::empty(), ..c };
    let w = with_connection(v, i, drained);
    lemma_update_sorted(v.connections, i, drained);
    lemma_index_unique(w.connections, i);
}

/// One segment is in flight at a time: right after a successful send, a further send on the
/// same socket is refused as busy, whatever its payload and time.
pub proof fn lemma_one_segment_in_flight(
    v: RuntimeView,
    socket: TcpSocket,
    first: Seq<u8>,
    second: Seq<u8>,
    now1: u64,
    now2: u64,
)
    requires
        runtime_wf(v),
        transmit_spec(v, socket, first, now1).1 is Ok,
        1 <= second.len() <= MAX_PAYLOAD,
    ensures
        transmit_spec(transmit_spec(v, socket, first, now1).0, socket, second, now2).1 == Err::<
            SegmentView,
            TcpError,
        >(TcpError::Busy),
{
    let i = socket_index(v.connections, socket);
    let c = v.connections[i].1;
    let sent = send_spec(c, socket, ACK | PSH, first, now1);
    let w = with_connection(v, i, sent.0);
    lemma_update_sorted(v.connections, i, sent.0);
    lemma_index_unique(w.connections, i);
    assert(w.connections[i].0 == socket);
    assert(holds_socket(w.connections, socket));
}

/// Opening a listener twice has the effect of opening it once.
pub proof fn lemma_listen_idempotent(v: RuntimeView, port: u16)
    ensures
        listen_spec(listen_spec(v, port).0, port) == listen_spec(v, port),
{
    let w = listen_spec(v, port).0;
    if port != 0 && !v.listeners.contains(port) && v.listeners.len() < MAX_LISTENERS {
        assert(w.listeners[w.listeners.len() - 1] == port);
    }
}

/// The three-way handshake: a bare `SYN` to a listening port opens a connection in
/// `SynReceived`, and the peer's in-order acknowledgment of the `SYN`+`ACK` establishes it.
pub proof fn lemma_handshake(
    v: RuntimeView,
    client: Ipv4Addr,
    server: Ipv4Addr,
    syn: SegmentView,
    ack: SegmentView,
    now1: u64,
    now2: u64,
)
    requires
        runtime_wf(v),
        !holds_socket(v.connections, incoming_socket(client, server, syn)),
        syn.flags == SYN,
        v.listeners.contains(syn.destination_port),
        v.connections.len() < MAX_CONNECTIONS,
        ack.source_port == syn.source_port,
        ack.destination_port == syn.destination_port,
        has_flags(ack.flags, ACK),
        !has_flags(ack.flags, RST),
        !has_flags(ack.flags, SYN),
        !has_flags(ack.flags, FIN),
        ack.sequence == wrapping_add(syn.sequence, 1),
        ack.acknowledgment == wrapping_add(next_initial_sequence(v), 1),
        ack.payload.len() == 0,
    ensures
        ({
            let socket = incoming_socket(client, server, syn);
            let (v1, reply) = arrive_spec(v, client, server, syn, true, now1);
            let v2 = arrive_spec(v1, client, server, ack, true, now2).0;
            &&& reply matches Some(r) && r.flags == SYN | ACK
            &&& holds_socket(v1.connections, socket)
            &&& v1.connections[socket_index(v1.connections, socket)].1.state == TcpState::SynReceived
            &&& holds_socket(v2.connections, socket)
            &&& v2.connections[socket_index(v2.connections, socket)].1.state == TcpState::Established
        }),
{
    lemma_flag_constants();
    let socket = incoming_socket(client, server, syn);
    assert(incoming_socket(client, server, ack) == socket);
    let j = insertion_point(v.connections, socket);
    let sequence = next_initial_sequence(v);
    let accepted = send_spec(
        ConnectionView {
            state: TcpState::SynReceived,
            receive_next: wrapping_add(syn.sequence, 1),
            peer_window: syn.window,
            ..fresh(sequence, now1)
        },
        socket,
        SYN | ACK,
        Seq::empty(),
        now1,
    );
    let v1 = arrive_spec(v, client, server, syn, true, now1).0;
    assert(v1.connections == v.connections.insert(j, (socket, accepted.0)));
    assert(splits_at(v.connections, socket, j)) by {
        lemma_insertion_point_exists(v.connections, socket);
    }
    lemma_insert_sorted(v.connections, socket, accepted.0, j);
    assert(v1.connections[j].0 == socket);
    lemma_index_unique(v1.connections, j);
    assert(sequence_len(accepted.1) == 1);
    let step = receive_spec(accepted.0, socket, ack, now2);
    assert(step.0.state == TcpState::Established);
    let v2 = with_connection(v1, j, step.0);
    lemma_update_sorted(v1.connections, j, step.0);
    lemma_index_unique(v2.connections, j);
}

} // verus!
