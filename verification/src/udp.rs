//! Bounded connected UDP endpoints for simulated applications: each endpoint accepts
//! datagrams from its configured peer only and queues at most four of them.
use crate::ipv4::Ipv4Addr;
use vstd::prelude::*;

verus! {

/// Largest number of open endpoints.
pub const MAX_ENDPOINTS: usize = 64;

/// Largest number of datagrams queued on one endpoint.
pub const QUEUE_LIMIT: usize = 4;

/// A connected UDP endpoint only accepts datagrams from its configured peer.
#[derive(Debug, Clone, Copy, PartialEq, Eq, PartialOrd, Ord, Structural)]
pub struct UdpSocket {
    pub local_address: Ipv4Addr,
    pub local_port: u16,
    pub remote_address: Ipv4Addr,
    pub remote_port: u16,
}

/// Rejected simulated UDP operations.
#[derive(Debug, Clone, Copy, PartialEq, Eq, Structural)]
pub enum UdpError {
    /// The endpoint's addresses or ports cannot be used.
    Endpoint,
    /// The endpoint is already open.
    Exists,
    /// All endpoints are in use.
    Capacity,
    /// The endpoint is not open.
    Missing,
}

/// What became of a datagram that arrived at the device.
#[derive(Debug, Clone, Copy, PartialEq, Eq, Structural)]
pub enum UdpDelivery {
    /// The destination is not an address of the device.
    NotLocal,
    /// An open endpoint took it: queued, or dropped because the queue was full.
    Endpoint,
    /// No endpoint matches; it is for the device's services.
    Service,
}

/// The open endpoints in ascending socket order, each with its queue of datagrams.
#[derive(Debug)]
pub struct UdpRuntime {
    sockets: Vec<(UdpSocket, Vec<Vec<u8>>)>,
}

/// A queue of datagrams as a mathematical value.
pub open spec fn queue_view(q: Seq<Vec<u8>>) -> Seq<Seq<u8>> {
    q.map_values(|d: Vec<u8>| d@)
}

/// Endpoints and their queues as mathematical values.
pub open spec fn endpoints_view(v: Seq<(UdpSocket, Vec<Vec<u8>>)>) -> Seq<(UdpSocket, Seq<Seq<u8>>)> {
    v.map_values(|e: (UdpSocket, Vec<Vec<u8>>)| (e.0, queue_view(e.1@)))
}

impl View for UdpRuntime {
    type V = Seq<(UdpSocket, Seq<Seq<u8>>)>;

    closed spec fn view(&self) -> Seq<(UdpSocket, Seq<Seq<u8>>)> {
        endpoints_view(self.sockets@)
    }
}

/// The order of endpoints: by local address, local port, remote address, then remote port.
pub open spec fn endpoint_before(a: UdpSocket, b: UdpSocket) -> bool {
    ||| a.local_address.0 < b.local_address.0
    ||| a.local_address.0 == b.local_address.0 && a.local_port < b.local_port
    ||| a.local_address.0 == b.local_address.0 && a.local_port == b.local_port
        && a.remote_address.0 < b.remote_address.0
    ||| a.local_address.0 == b.local_address.0 && a.local_port == b.local_port
        && a.remote_address.0 == b.remote_address.0 && a.remote_port < b.remote_port
}

/// Endpoints listed in strictly ascending order, so none occurs twice.
pub open spec fn endpoints_sorted(v: Seq<(UdpSocket, Seq<Seq<u8>>)>) -> bool {
    forall|i: int, j: int| 0 <= i < j < v.len() ==> endpoint_before(#[trigger] v[i].0, #[trigger] v[j].0)
}

/// Whether `socket` is open.
pub open spec fn is_open(v: Seq<(UdpSocket, Seq<Seq<u8>>)>, socket: UdpSocket) -> bool {
    exists|i: int| 0 <= i < v.len() && #[trigger] v[i].0 == socket
}

/// Where `socket` is listed.
pub open spec fn endpoint_index(v: Seq<(UdpSocket, Seq<Seq<u8>>)>, socket: UdpSocket) -> int {
    choose|i: int| 0 <= i < v.len() && #[trigger] v[i].0 == socket
}

/// Whether every endpoint listed before `j` precedes `socket` and every one from `j` on
/// follows it.
pub open spec fn endpoint_splits_at(v: Seq<(UdpSocket, Seq<Seq<u8>>)>, socket: UdpSocket, j: int) -> bool {
    &&& 0 <= j <= v.len()
    &&& forall|i: int| 0 <= i < j ==> endpoint_before(#[trigger] v[i].0, socket)
    &&& forall|i: int| j <= i < v.len() ==> endpoint_before(socket, #[trigger] v[i].0)
}

/// Where a new endpoint for `socket` is listed.
pub open spec fn endpoint_slot(v: Seq<(UdpSocket, Seq<Seq<u8>>)>, socket: UdpSocket) -> int {
    choose|j: int| endpoint_splits_at(v, socket, j)
}

/// A runtime in ascending endpoint order, with no queue over its limit.
pub open spec fn udp_wf(v: Seq<(UdpSocket, Seq<Seq<u8>>)>) -> bool {
    &&& endpoints_sorted(v)
    &&& forall|i: int| 0 <= i < v.len() ==> (#[trigger] v[i]).1.len() <= QUEUE_LIMIT
}

/// Whether an endpoint may be opened on `socket`: the device owns the local address, the
/// ports are nonzero and not the DHCP ports, no UDP service uses the local port, and the
/// remote address is neither unspecified, multicast nor broadcast.
pub open spec fn endpoint_usable(socket: UdpSocket, local_owned: bool, service_ports: Seq<u16>) -> bool {
    &&& local_owned
    &&& socket.local_port != 0
    &&& socket.remote_port != 0
    &&& socket.remote_address.0 != 0
    &&& !(0xe000_0000 <= socket.remote_address.0 <= 0xefff_ffff)
    &&& socket.remote_address.0 != 0xffff_ffff
    &&& socket.local_port != 67
    &&& socket.local_port != 68
    &&& !service_ports.contains(socket.local_port)
}

/// The endpoints and result of opening `socket`.
pub open spec fn open_spec(
    v: Seq<(UdpSocket, Seq<Seq<u8>>)>,
    socket: UdpSocket,
    local_owned: bool,
    service_ports: Seq<u16>,
) -> (Seq<(UdpSocket, Seq<Seq<u8>>)>, Result<(), UdpError>) {
    if !endpoint_usable(socket, local_owned, service_ports) {
        (v, Err(UdpError::Endpoint))
    } else if is_open(v, socket) {
        (v, Err(UdpError::Exists))
    } else if v.len() >= MAX_ENDPOINTS {
        (v, Err(UdpError::Capacity))
    } else {
        (v.insert(endpoint_slot(v, socket), (socket, Seq::empty())), Ok(()))
    }
}

/// The endpoints after closing `socket`, with its queued datagrams.
pub open spec fn close_endpoint(v: Seq<(UdpSocket, Seq<Seq<u8>>)>, socket: UdpSocket) -> Seq<(UdpSocket, Seq<Seq<u8>>)> {
    if is_open(v, socket) {
        v.remove(endpoint_index(v, socket))
    } else {
        v
    }
}

/// The endpoints and result of consuming the oldest datagram queued on `socket`.
pub open spec fn udp_read_spec(v: Seq<(UdpSocket, Seq<Seq<u8>>)>, socket: UdpSocket) -> (
    Seq<(UdpSocket, Seq<Seq<u8>>)>,
    Result<Option<Seq<u8>>, UdpError>,
) {
    if !is_open(v, socket) {
        (v, Err(UdpError::Missing))
    } else {
        let i = endpoint_index(v, socket);
        let q = v[i].1;
        if q.len() == 0 {
            (v, Ok(None))
        } else {
            (v.update(i, (socket, q.drop_first())), Ok(Some(q[0])))
        }
    }
}

/// The endpoints and outcome after a datagram from `source`:`source_port` arrives for
/// `destination`:`destination_port`; `local_owned` tells whether the device owns
/// `destination`.
pub open spec fn deliver_spec(
    v: Seq<(UdpSocket, Seq<Seq<u8>>)>,
    source: Ipv4Addr,
    source_port: u16,
    destination: Ipv4Addr,
    destination_port: u16,
    payload: Seq<u8>,
    local_owned: bool,
) -> (Seq<(UdpSocket, Seq<Seq<u8>>)>, UdpDelivery) {
    let socket = UdpSocket {
        local_address: destination,
        local_port: destination_port,
        remote_address: source,
        remote_port: source_port,
    };
    if !local_owned {
        (v, UdpDelivery::NotLocal)
    } else if is_open(v, socket) {
        let i = endpoint_index(v, socket);
        let q = v[i].1;
        if q.len() < QUEUE_LIMIT {
            (v.update(i, (socket, q.push(payload))), UdpDelivery::Endpoint)
        } else {
            (v, UdpDelivery::Endpoint)
        }
    } else {
        (v, UdpDelivery::Service)
    }
}

proof fn lemma_endpoint_order(a: UdpSocket, b: UdpSocket, c: UdpSocket)
    ensures
        !endpoint_before(a, a),
        !(endpoint_before(a, b) && endpoint_before(b, a)),
        a != b ==> endpoint_before(a, b) || endpoint_before(b, a),
        endpoint_before(a, b) && endpoint_before(b, c) ==> endpoint_before(a, c),
{
}

proof fn lemma_endpoint_index(v: Seq<(UdpSocket, Seq<Seq<u8>>)>, i: int)
    requires
        endpoints_sorted(v),
        0 <= i < v.len(),
    ensures
        is_open(v, v[i].0),
        endpoint_index(v, v[i].0) == i,
{
    let s = v[i].0;
    assert(is_open(v, s));
    let k = endpoint_index(v, s);
    if k < i {
        assert(endpoint_before(v[k].0, v[i].0));
        lemma_endpoint_order(s, s, s);
    } else if i < k {
        assert(endpoint_before(v[i].0, v[k].0));
        lemma_endpoint_order(s, s, s);
    }
}

proof fn lemma_slot_unique(v: Seq<(UdpSocket, Seq<Seq<u8>>)>, socket: UdpSocket, j: int)
    requires
        endpoint_splits_at(v, socket, j),
    ensures
        endpoint_slot(v, socket) == j,
{
    let k = endpoint_slot(v, socket);
    assert(endpoint_splits_at(v, socket, k));
    if k < j {
        assert(endpoint_before(v[k].0, socket) && endpoint_before(socket, v[k].0));
        lemma_endpoint_order(socket, v[k].0, socket);
    } else if j < k {
        assert(endpoint_before(v[j].0, socket) && endpoint_before(socket, v[j].0));
        lemma_endpoint_order(socket, v[j].0, socket);
    }
}

proof fn lemma_update_keeps_order(v: Seq<(UdpSocket, Seq<Seq<u8>>)>, i: int, q: Seq<Seq<u8>>)
    requires
        udp_wf(v),
        0 <= i < v.len(),
        q.len() <= QUEUE_LIMIT,
    ensures
        udp_wf(v.update(i, (v[i].0, q))),
{
    let n = v.update(i, (v[i].0, q));
    assert forall|a: int, b: int| 0 <= a < b < n.len() implies endpoint_before(
        #[trigger] n[a].0,
        #[trigger] n[b].0,
    ) by {
        assert(n[a].0 == v[a].0 && n[b].0 == v[b].0);
    }
    assert forall|k: int| 0 <= k < n.len() implies (#[trigger] n[k]).1.len() <= QUEUE_LIMIT by {
        if k != i {
            assert(n[k] == v[k]);
        }
    }
}

fn endpoint_less(a: UdpSocket, b: UdpSocket) -> (r: bool)
    ensures
        r == endpoint_before(a, b),
{
    if a.local_address.0 != b.local_address.0 {
        return a.local_address.0 < b.local_address.0;
    }
    if a.local_port != b.local_port {
        return a.local_port < b.local_port;
    }
    if a.remote_address.0 != b.remote_address.0 {
        return a.remote_address.0 < b.remote_address.0;
    }
    a.remote_port < b.remote_port
}

fn same_endpoint(a: UdpSocket, b: UdpSocket) -> (r: bool)
    ensures
        r == (a == b),
{
    a.local_address.0 == b.local_address.0 && a.local_port == b.local_port
        && a.remote_address.0 == b.remote_address.0 && a.remote_port == b.remote_port
}

impl UdpRuntime {
    /// A runtime with no endpoints.
    pub fn new() -> (r: UdpRuntime)
        ensures
            r@ == Seq::<(UdpSocket, Seq<Seq<u8>>)>::empty(),
            udp_wf(r@),
    {
        let r = UdpRuntime { sockets: Vec::new() };
        assert(r@ =~= Seq::<(UdpSocket, Seq<Seq<u8>>)>::empty());
        r
    }

    /// Where `socket` is listed, if it is open.
    fn position(&self, socket: UdpSocket) -> (r: Option<usize>)
        requires
            udp_wf(self@),
        ensures
            match r {
                Some(i) => i < self@.len() && is_open(self@, socket) && endpoint_index(self@, socket)
                    == i && self@[i as int].0 == socket,
                None => !is_open(self@, socket),
            },
    {
        let mut i: usize = 0;
        while i < self.sockets.len()
            invariant
                udp_wf(self@),
                i <= self.sockets@.len(),
                self@.len() == self.sockets@.len(),
                forall|k: int| 0 <= k < i ==> self@[k].0 != socket,
            decreases self.sockets@.len() - i,
        {
            assert(self@[i as int].0 == self.sockets@[i as int].0);
            if same_endpoint(self.sockets[i].0, socket) {
                proof {
                    lemma_endpoint_index(self@, i as int);
                }
                return Some(i);
            }
            i = i + 1;
        }
        None
    }

    /// Where a new endpoint for `socket`, which is not open, is listed.
    fn slot(&self, socket: UdpSocket) -> (j: usize)
        requires
            udp_wf(self@),
            !is_open(self@, socket),
        ensures
            j as int == endpoint_slot(self@, socket),
            endpoint_splits_at(self@, socket, j as int),
    {
        let ghost v = self@;
        let mut j: usize = 0;
        while j < self.sockets.len() && endpoint_less(self.sockets[j].0, socket)
            invariant
                v == self@,
                udp_wf(v),
                !is_open(v, socket),
                j <= self.sockets@.len(),
                v.len() == self.sockets@.len(),
                forall|k: int| 0 <= k < v.len() ==> #[trigger] v[k].0 == self.sockets@[k].0,
                forall|i: int| 0 <= i < j ==> endpoint_before(#[trigger] v[i].0, socket),
            decreases self.sockets@.len() - j,
        {
            j = j + 1;
        }
        proof {
            if j < v.len() {
                assert(v[j as int].0 != socket);
                lemma_endpoint_order(v[j as int].0, socket, socket);
                assert forall|i: int| j <= i < v.len() implies endpoint_before(
                    socket,
                    #[trigger] v[i].0,
                ) by {
                    if i > j {
                        assert(endpoint_before(v[j as int].0, v[i].0));
                        lemma_endpoint_order(socket, v[j as int].0, v[i].0);
                    }
                }
            }
            assert(endpoint_splits_at(v, socket, j as int));
            lemma_slot_unique(v, socket, j as int);
        }
        j
    }

    /// Open a peer-filtered endpoint. `local_owned` tells whether the device owns the local
    /// address, and `service_ports` lists the ports of the device's UDP services.
    pub fn udp_open(&mut self, socket: UdpSocket, local_owned: bool, service_ports: &[u16]) -> (r:
        Result<(), UdpError>)
        requires
            udp_wf(old(self)@),
        ensures
            udp_wf(final(self)@),
            (final(self)@, r) == open_spec(old(self)@, socket, local_owned, service_ports@),
    {
        let mut service = false;
        let mut k: usize = 0;
        while k < service_ports.len()
            invariant
                k <= service_ports@.len(),
                service == (exists|i: int| 0 <= i < k && service_ports@[i] == socket.local_port),
            decreases service_ports@.len() - k,
        {
            if service_ports[k] == socket.local_port {
                service = true;
            }
            k = k + 1;
        }
        assert(service == service_ports@.contains(socket.local_port));
        if !local_owned || socket.local_port == 0 || socket.remote_port == 0
            || socket.remote_address.is_unspecified() || socket.remote_address.is_multicast()
            || socket.remote_address.is_broadcast() || socket.local_port == 67
            || socket.local_port == 68 || service {
            return Err(UdpError::Endpoint);
        }
        if self.position(socket).is_some() {
            return Err(UdpError::Exists);
        }
        if self.sockets.len() >= MAX_ENDPOINTS {
            return Err(UdpError::Capacity);
        }
        let j = self.slot(socket);
        let ghost v = self@;
        let empty: Vec<Vec<u8>> = Vec::new();
        assert(queue_view(empty@) =~= Seq::<Seq<u8>>::empty());
        self.sockets.insert(j, (socket, empty));
        proof {
            let n = v.insert(j as int, (socket, Seq::empty()));
            assert(self@ =~= n);
            assert forall|a: int, b: int| 0 <= a < b < n.len() implies endpoint_before(
                #[trigger] n[a].0,
                #[trigger] n[b].0,
            ) by {
                if b < j {
                    assert(n[a] == v[a] && n[b] == v[b]);
                } else if b == j {
                    assert(n[a] == v[a]);
                } else if a < j {
                    assert(n[a] == v[a] && n[b] == v[b - 1]);
                } else if a == j {
                    assert(n[b] == v[b - 1]);
                } else {
                    assert(n[a] == v[a - 1] && n[b] == v[b - 1]);
                }
            }
            assert forall|k: int| 0 <= k < n.len() implies (#[trigger] n[k]).1.len() <= QUEUE_LIMIT by {
                if k < j {
                    assert(n[k] == v[k]);
                } else if k > j {
                    assert(n[k] == v[k - 1]);
                }
            }
        }
        Ok(())
    }

    /// Remove an endpoint and its queued datagrams; closing an endpoint that is not open does
    /// nothing.
    pub fn udp_close(&mut self, socket: UdpSocket)
        requires
            udp_wf(old(self)@),
        ensures
            udp_wf(final(self)@),
            final(self)@ == close_endpoint(old(self)@, socket),
    {
        if let Some(i) = self.position(socket) {
            let ghost v = self@;
            let _ = self.sockets.remove(i);
            proof {
                let n = v.remove(i as int);
                assert(self@ =~= n);
                assert forall|a: int, b: int| 0 <= a < b < n.len() implies endpoint_before(
                    #[trigger] n[a].0,
                    #[trigger] n[b].0,
                ) by {
                    if b < i {
                        assert(n[a] == v[a] && n[b] == v[b]);
                    } else if a < i {
                        assert(n[a] == v[a] && n[b] == v[b + 1]);
                    } else {
                        assert(n[a] == v[a + 1] && n[b] == v[b + 1]);
                    }
                }
                assert forall|k: int| 0 <= k < n.len() implies (#[trigger] n[k]).1.len() <= QUEUE_LIMIT by {
                    if k < i {
                        assert(n[k] == v[k]);
                    } else {
                        assert(n[k] == v[k + 1]);
                    }
                }
            }
        }
    }

    /// Consume the oldest datagram queued on `socket`, if any.
    pub fn udp_read(&mut self, socket: UdpSocket) -> (r: Result<Option<Vec<u8>>, UdpError>)
        requires
            udp_wf(old(self)@),
        ensures
            udp_wf(final(self)@),
            final(self)@ == udp_read_spec(old(self)@, socket).0,
            match r {
                Ok(Some(d)) => udp_read_spec(old(self)@, socket).1 == Ok::<Option<Seq<u8>>, UdpError>(
                    Some(d@),
                ),
                Ok(None) => udp_read_spec(old(self)@, socket).1 == Ok::<Option<Seq<u8>>, UdpError>(
                    None,
                ),
                Err(e) => udp_read_spec(old(self)@, socket).1 == Err::<Option<Seq<u8>>, UdpError>(e),
            },
    {
        let i = match self.position(socket) {
            Some(i) => i,
            None => return Err(UdpError::Missing),
        };
        let ghost v = self@;
        assert(v[i as int].1 == queue_view(self.sockets@[i as int].1@));
        if self.sockets[i].1.len() == 0 {
            return Ok(None);
        }
        let (s, mut queue) = self.sockets.remove(i);
        let datagram = queue.remove(0);
        self.sockets.insert(i, (s, queue));
        proof {
            let q = v[i as int].1;
            assert(queue_view(queue@) =~= q.drop_first());
            lemma_update_keeps_order(v, i as int, q.drop_first());
            assert(self@ =~= v.update(i as int, (socket, q.drop_first())));
        }
        Ok(Some(datagram))
    }

    /// The open endpoints in ascending order, each with the number of datagrams queued.
    pub fn udp_sockets(&self) -> (r: Vec<(UdpSocket, usize)>)
        ensures
            r@.len() == self@.len(),
            forall|i: int|
                0 <= i < r@.len() ==> (#[trigger] r@[i]).0 == self@[i].0 && r@[i].1 == self@[i].1.len(),
    {
        let mut r: Vec<(UdpSocket, usize)> = Vec::new();
        let mut i: usize = 0;
        while i < self.sockets.len()
            invariant
                i <= self.sockets@.len(),
                self@.len() == self.sockets@.len(),
                r@.len() == i,
                forall|k: int|
                    0 <= k < i ==> (#[trigger] r@[k]).0 == self@[k].0 && r@[k].1 == self@[k].1.len(),
            decreases self.sockets@.len() - i,
        {
            assert(self@[i as int] == (self.sockets@[i as int].0, queue_view(self.sockets@[i as int].1@)));
            r.push((self.sockets[i].0, self.sockets[i].1.len()));
            i = i + 1;
        }
        r
    }

    /// Deliver a datagram from `source`:`source_port` to `destination`:`destination_port`.
    /// An open endpoint for that peer queues it while it has room; with no such endpoint the
    /// datagram is for the device's services. `local_owned` tells whether the device owns
    /// `destination`.
    pub fn receive_udp(
        &mut self,
        source: Ipv4Addr,
        source_port: u16,
        destination: Ipv4Addr,
        destination_port: u16,
        payload: Vec<u8>,
        local_owned: bool,
    ) -> (r: UdpDelivery)
        requires
            udp_wf(old(self)@),
        ensures
            udp_wf(final(self)@),
            (final(self)@, r) == deliver_spec(
                old(self)@,
                source,
                source_port,
                destination,
                destination_port,
                payload@,
                local_owned,
            ),
    {
        if !local_owned {
            return UdpDelivery::NotLocal;
        }
        let socket = UdpSocket {
            local_address: destination,
            local_port: destination_port,
            remote_address: source,
            remote_port: source_port,
        };
        let i = match self.position(socket) {
            Some(i) => i,
            None => return UdpDelivery::Service,
        };
        let ghost v = self@;
        assert(v[i as int].1 == queue_view(self.sockets@[i as int].1@));
        if self.sockets[i].1.len() < QUEUE_LIMIT {
            let ghost p = payload@;
            let (s, mut queue) = self.sockets.remove(i);
            queue.push(payload);
            self.sockets.insert(i, (s, queue));
            proof {
                let q = v[i as int].1;
                assert(queue_view(queue@) =~= q.push(p));
                lemma_update_keeps_order(v, i as int, q.push(p));
                assert(self@ =~= v.update(i as int, (socket, q.push(p))));
            }
        }
        UdpDelivery::Endpoint
    }
}

/// Reading returns datagrams in the order they arrived: a datagram delivered to an endpoint
/// with an empty queue is exactly what the next read returns, and the queue is empty again.
pub proof fn lemma_delivery_then_read(
    v: Seq<(UdpSocket, Seq<Seq<u8>>)>,
    source: Ipv4Addr,
    source_port: u16,
    destination: Ipv4Addr,
    destination_port: u16,
    payload: Seq<u8>,
)
    requires
        udp_wf(v),
        ({
            let socket = UdpSocket {
                local_address: destination,
                local_port: destination_port,
                remote_address: source,
                remote_port: source_port,
            };
            is_open(v, socket) && v[endpoint_index(v, socket)].1.len() == 0
        }),
    ensures
        ({
            let socket = UdpSocket {
                local_address: destination,
                local_port: destination_port,
                remote_address: source,
                remote_port: source_port,
            };
            let delivered = deliver_spec(
                v,
                source,
                source_port,
                destination,
                destination_port,
                payload,
                true,
            );
            &&& delivered.1 == UdpDelivery::Endpoint
            &&& udp_read_spec(delivered.0, socket).1 == Ok::<Option<Seq<u8>>, UdpError>(Some(payload))
            &&& udp_read_spec(delivered.0, socket).0 == v
        }),
{
    let socket = UdpSocket {
        local_address: destination,
        local_port: destination_port,
        remote_address: source,
        remote_port: source_port,
    };
    let i = endpoint_index(v, socket);
    let q = v[i].1;
    let w = v.update(i, (socket, q.push(payload)));
    lemma_update_keeps_order(v, i, q.push(payload));
    lemma_endpoint_index(w, i);
    assert(w[i].1 =~= seq![payload]);
    assert(w.update(i, (socket, w[i].1.drop_first())) =~= v) by {
        assert(w[i].1.drop_first() =~= q);
    }
}

/// A full queue drops further datagrams for its endpoint and leaves the endpoints unchanged.
pub proof fn lemma_full_queue_drops(
    v: Seq<(UdpSocket, Seq<Seq<u8>>)>,
    source: Ipv4Addr,
    source_port: u16,
    destination: Ipv4Addr,
    destination_port: u16,
    payload: Seq<u8>,
)
    requires
        udp_wf(v),
        ({
            let socket = UdpSocket {
                local_address: destination,
                local_port: destination_port,
                remote_address: source,
                remote_port: source_port,
            };
            is_open(v, socket) && v[endpoint_index(v, socket)].1.len() == QUEUE_LIMIT
        }),
    ensures
        deliver_spec(v, source, source_port, destination, destination_port, payload, true) == (
            v,
            UdpDelivery::Endpoint,
        ),
{
}

} // verus!
