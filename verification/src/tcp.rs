//! Deterministic TCP connection state machine: one outstanding segment at a time, bounded
//! receive buffer, and simulated-time bookkeeping in microseconds.
use crate::ipv4::Ipv4Addr;
use crate::text::copy_range;
use vstd::prelude::*;
use vstd::wrapping::u32_specs::wrapping_add;

pub mod runtime;

pub use runtime::{RuntimeView, TcpError, TcpRuntime};

verus! {

/// Largest number of received bytes buffered for the application.
pub const RECEIVE_LIMIT: usize = 65535;

/// How long a connection lingers in `TimeWait`, in microseconds.
pub const TIME_WAIT_US: u64 = 120_000_000;

/// First retransmission timeout, in microseconds.
pub const RETRANSMIT_US: u64 = 1_000_000;

/// Control bit: no more data from the sender.
pub const FIN: u8 = 0x01;

/// Control bit: synchronize sequence numbers.
pub const SYN: u8 = 0x02;

/// Control bit: reset the connection.
pub const RST: u8 = 0x04;

/// Control bit: push buffered data.
pub const PSH: u8 = 0x08;

/// Control bit: the acknowledgment field is significant.
pub const ACK: u8 = 0x10;

/// Observable TCP connection lifecycle.
#[derive(Debug, Clone, Copy, PartialEq, Eq, Structural)]
pub enum TcpState {
    Closed,
    SynSent,
    SynReceived,
    Established,
    FinWait,
    CloseWait,
    LastAck,
    TimeWait,
}

/// Local and remote transport endpoints identifying a TCP connection.
#[derive(Debug, Clone, Copy, PartialEq, Eq, PartialOrd, Ord, Structural)]
pub struct TcpSocket {
    pub local_address: Ipv4Addr,
    pub local_port: u16,
    pub remote_address: Ipv4Addr,
    pub remote_port: u16,
}

/// The header fields and payload of one TCP segment.
#[derive(Debug, Clone, PartialEq, Eq)]
pub struct TcpSegment {
    pub source_port: u16,
    pub destination_port: u16,
    pub sequence: u32,
    pub acknowledgment: u32,
    /// Control bits (`FIN`, `SYN`, `RST`, `PSH`, `ACK`).
    pub flags: u8,
    pub window: u16,
    pub options: Vec<u8>,
    pub payload: Vec<u8>,
}

/// A segment as a mathematical value.
#[verifier::ext_equal]
pub struct SegmentView {
    pub source_port: u16,
    pub destination_port: u16,
    pub sequence: u32,
    pub acknowledgment: u32,
    pub flags: u8,
    pub window: u16,
    pub options: Seq<u8>,
    pub payload: Seq<u8>,
}

impl View for TcpSegment {
    type V = SegmentView;

    open spec fn view(&self) -> SegmentView {
        SegmentView {
            source_port: self.source_port,
            destination_port: self.destination_port,
            sequence: self.sequence,
            acknowledgment: self.acknowledgment,
            flags: self.flags,
            window: self.window,
            options: self.options@,
            payload: self.payload@,
        }
    }
}

/// Whether all of the control bits `bits` are set in `flags`.
pub open spec fn has_flags(flags: u8, bits: u8) -> bool {
    flags & bits == bits
}

/// Sequence space a segment occupies: its payload plus one for each of `SYN` and `FIN`.
pub open spec fn sequence_len(s: SegmentView) -> int {
    s.payload.len() + (if has_flags(s.flags, SYN) {
        1int
    } else {
        0int
    }) + (if has_flags(s.flags, FIN) {
        1int
    } else {
        0int
    })
}

impl TcpSegment {
    /// Whether all of the control bits `bits` are set.
    pub fn contains(&self, bits: u8) -> (r: bool)
        ensures
            r == has_flags(self.flags, bits),
    {
        self.flags & bits == bits
    }

    /// Sequence space the segment occupies.
    pub fn sequence_len(&self) -> (n: u32)
        requires
            self.payload@.len() + 2 <= u32::MAX,
        ensures
            n == sequence_len(self@),
    {
        let mut n = self.payload.len() as u32;
        if self.contains(SYN) {
            n = n + 1;
        }
        if self.contains(FIN) {
            n = n + 1;
        }
        n
    }
}

/// The segment awaiting acknowledgment and its retransmission schedule.
#[derive(Debug, Clone, PartialEq, Eq)]
pub struct Outstanding {
    pub segment: TcpSegment,
    pub deadline: u64,
    pub retries: u8,
}

/// One bounded stream. This stack sends one segment at a time.
#[derive(Debug, Clone, PartialEq, Eq)]
pub struct TcpConnection {
    pub state: TcpState,
    pub retransmissions: u64,
    send_next: u32,
    receive_next: u32,
    peer_window: u16,
    received: Vec<u8>,
    outstanding: Option<Outstanding>,
    last_activity: u64,
    time_wait_until: Option<u64>,
    peer_closed: bool,
}

/// A connection as a mathematical value.
#[verifier::ext_equal]
pub struct ConnectionView {
    pub state: TcpState,
    pub retransmissions: u64,
    pub send_next: u32,
    pub receive_next: u32,
    pub peer_window: u16,
    pub received: Seq<u8>,
    pub outstanding: Option<(SegmentView, u64, u8)>,
    pub last_activity: u64,
    pub time_wait_until: Option<u64>,
    pub peer_closed: bool,
}

impl View for TcpConnection {
    type V = ConnectionView;

    closed spec fn view(&self) -> ConnectionView {
        ConnectionView {
            state: self.state,
            retransmissions: self.retransmissions,
            send_next: self.send_next,
            receive_next: self.receive_next,
            peer_window: self.peer_window,
            received: self.received@,
            outstanding: match self.outstanding {
                Some(o) => Some((o.segment@, o.deadline, o.retries)),
                None => None,
            },
            last_activity: self.last_activity,
            time_wait_until: self.time_wait_until,
            peer_closed: self.peer_closed,
        }
    }
}

/// A connection whose receive buffer is within its limit.
pub open spec fn connection_wf(c: ConnectionView) -> bool {
    c.received.len() <= RECEIVE_LIMIT
}

/// The segment a connection emits next: its sequence and acknowledgment numbers, the
/// remaining receive window, no options.
pub open spec fn emitted(c: ConnectionView, socket: TcpSocket, flags: u8, payload: Seq<u8>) -> SegmentView {
    SegmentView {
        source_port: socket.local_port,
        destination_port: socket.remote_port,
        sequence: c.send_next,
        acknowledgment: c.receive_next,
        flags,
        window: (RECEIVE_LIMIT - c.received.len()) as u16,
        options: Seq::<u8>::empty(),
        payload,
    }
}

/// Bare acknowledgment of everything received so far.
pub open spec fn ack_of(c: ConnectionView, socket: TcpSocket) -> Option<SegmentView> {
    Some(emitted(c, socket, ACK, Seq::<u8>::empty()))
}

/// Enter `TimeWait` at time `now`.
pub open spec fn time_wait(c: ConnectionView, now: u64) -> ConnectionView {
    ConnectionView {
        state: TcpState::TimeWait,
        time_wait_until: Some(later(now, TIME_WAIT_US)),
        ..c
    }
}

/// Data and `FIN` delivery for an in-order acknowledging segment, after acknowledgment
/// processing has produced connection `c`.
pub open spec fn deliver(c: ConnectionView, socket: TcpSocket, s: SegmentView, now: u64) -> (
    ConnectionView,
    Option<SegmentView>,
) {
    if c.state == TcpState::TimeWait {
        (c, ack_of(c, socket))
    } else if c.peer_closed {
        (c, None)
    } else if c.received.len() + s.payload.len() > RECEIVE_LIMIT {
        (c, ack_of(c, socket))
    } else {
        let data = ConnectionView {
            receive_next: wrapping_add(c.receive_next, s.payload.len() as u32),
            received: c.received + s.payload,
            ..c
        };
        let fin = has_flags(s.flags, FIN);
        let closed = if fin {
            let f = ConnectionView {
                receive_next: wrapping_add(data.receive_next, 1),
                peer_closed: true,
                ..data
            };
            if f.state == TcpState::FinWait {
                if f.outstanding is None {
                    time_wait(f, now)
                } else {
                    f
                }
            } else {
                ConnectionView { state: TcpState::CloseWait, ..f }
            }
        } else {
            data
        };
        (
            closed,
            if s.payload.len() > 0 || fin {
                ack_of(closed, socket)
            } else {
                None
            },
        )
    }
}

/// The connection and reply after receiving one segment addressed to it.
pub open spec fn receive_spec(c: ConnectionView, socket: TcpSocket, s: SegmentView, now: u64) -> (
    ConnectionView,
    Option<SegmentView>,
) {
    if c.state == TcpState::Closed {
        (c, None)
    } else if has_flags(s.flags, RST) {
        let valid = if c.state == TcpState::SynSent {
            has_flags(s.flags, ACK) && s.acknowledgment == c.send_next
        } else {
            s.sequence == c.receive_next
        };
        if valid {
            (ConnectionView { state: TcpState::Closed, outstanding: None, ..c }, None)
        } else {
            (c, None)
        }
    } else if c.state == TcpState::SynSent {
        if has_flags(s.flags, SYN | ACK) && s.acknowledgment == c.send_next {
            let e = ConnectionView {
                receive_next: wrapping_add(s.sequence, 1),
                peer_window: s.window,
                outstanding: None,
                state: TcpState::Established,
                last_activity: now,
                ..c
            };
            (e, ack_of(e, socket))
        } else {
            (c, None)
        }
    } else if c.state == TcpState::SynReceived && has_flags(s.flags, SYN) && wrapping_add(
        s.sequence,
        1,
    ) == c.receive_next {
        (
            c,
            match c.outstanding {
                Some((seg, _, _)) => Some(seg),
                None => None,
            },
        )
    } else if s.sequence != c.receive_next {
        (c, ack_of(c, socket))
    } else if !has_flags(s.flags, ACK) {
        (c, None)
    } else if s.acknowledgment == c.send_next {
        let a = ConnectionView {
            outstanding: None,
            state: if c.state == TcpState::SynReceived {
                TcpState::Established
            } else {
                c.state
            },
            ..c
        };
        if a.state == TcpState::LastAck {
            (ConnectionView { state: TcpState::Closed, ..a }, None)
        } else {
            let b = if a.state == TcpState::FinWait && a.peer_closed {
                time_wait(a, now)
            } else {
                a
            };
            deliver(ConnectionView { last_activity: now, peer_window: s.window, ..b }, socket, s, now)
        }
    } else if c.state == TcpState::SynReceived {
        (c, None)
    } else {
        deliver(ConnectionView { last_activity: now, peer_window: s.window, ..c }, socket, s, now)
    }
}

/// A closed connection whose first segment will carry sequence number `sequence`.
pub open spec fn fresh(sequence: u32, now: u64) -> ConnectionView {
    ConnectionView {
        state: TcpState::Closed,
        retransmissions: 0,
        send_next: sequence,
        receive_next: 0,
        peer_window: 65535,
        received: Seq::<u8>::empty(),
        outstanding: None,
        last_activity: now,
        time_wait_until: None,
        peer_closed: false,
    }
}

/// `now + span`, saturating at the largest time.
pub open spec fn later(now: u64, span: u64) -> u64 {
    if now as int + span > u64::MAX {
        u64::MAX
    } else {
        (now + span) as u64
    }
}

/// The connection after emitting a segment, and the segment: the send sequence advances
/// by the segment's sequence space, which, when nonzero, is awaited for acknowledgment.
pub open spec fn send_spec(c: ConnectionView, socket: TcpSocket, flags: u8, payload: Seq<u8>, now: u64) -> (
    ConnectionView,
    SegmentView,
) {
    let s = emitted(c, socket, flags, payload);
    (
        ConnectionView {
            send_next: wrapping_add(c.send_next, sequence_len(s) as u32),
            outstanding: if sequence_len(s) != 0 {
                Some((s, later(now, RETRANSMIT_US), 0u8))
            } else {
                c.outstanding
            },
            last_activity: now,
            ..c
        },
        s,
    )
}

/// Inactivity after which a connection is dropped, in microseconds.
pub const IDLE_US: u64 = 300_000_000;

/// Retransmissions of one segment before its connection is given up.
pub const MAX_RETRIES: u8 = 5;

/// Whether a connection survives a tick at `now`: it is open, was active within the idle
/// limit, and has not finished waiting in `TimeWait`.
pub open spec fn lingers(c: ConnectionView, now: u64) -> bool {
    &&& c.state != TcpState::Closed
    &&& (if now >= c.last_activity {
        now - c.last_activity
    } else {
        0
    }) < IDLE_US
    &&& match c.time_wait_until {
        Some(deadline) => deadline > now,
        None => true,
    }
}

/// A connection after its retransmission timer is checked at `now`, and the segment sent
/// again if any: a due segment is resent with a doubled timeout, or, after `MAX_RETRIES`
/// resends, the connection closes.
pub open spec fn retransmit_step(c: ConnectionView, now: u64) -> (ConnectionView, Option<SegmentView>) {
    match c.outstanding {
        Some((segment, deadline, retries)) => if deadline > now {
            (c, None)
        } else if retries >= MAX_RETRIES {
            (ConnectionView { state: TcpState::Closed, ..c }, None)
        } else {
            let next = (retries + 1) as u8;
            (
                ConnectionView {
                    outstanding: Some((segment, later(now, RETRANSMIT_US << next), next)),
                    retransmissions: (c.retransmissions + 1) as u64,
                    ..c
                },
                Some(segment),
            )
        },
        None => (c, None),
    }
}

/// An independent copy of a segment.
pub fn copy_segment(s: &TcpSegment) -> (r: TcpSegment)
    ensures
        r@ == s@,
{
    let r = TcpSegment {
        source_port: s.source_port,
        destination_port: s.destination_port,
        sequence: s.sequence,
        acknowledgment: s.acknowledgment,
        flags: s.flags,
        window: s.window,
        options: copy_range(s.options.as_slice(), 0, s.options.len()),
        payload: copy_range(s.payload.as_slice(), 0, s.payload.len()),
    };
    assert(r.options@ =~= s.options@);
    assert(r.payload@ =~= s.payload@);
    assert(r@ =~= s@);
    r
}

proof fn lemma_flag_union(f: u8)
    ensures
        has_flags(f, SYN | ACK) == (has_flags(f, SYN) && has_flags(f, ACK)),
{
    assert((f & (0x02u8 | 0x10u8) == (0x02u8 | 0x10u8)) == ((f & 0x02u8 == 0x02u8) && (f & 0x10u8
        == 0x10u8))) by (bit_vector);
}

impl TcpConnection {
    /// A closed connection whose first segment will carry sequence number `sequence`.
    pub fn new(sequence: u32, now: u64) -> (c: TcpConnection)
        ensures
            c@ == fresh(sequence, now),
            connection_wf(c@),
    {
        TcpConnection {
            state: TcpState::Closed,
            retransmissions: 0,
            send_next: sequence,
            receive_next: 0,
            peer_window: 65535,
            received: Vec::new(),
            outstanding: None,
            last_activity: now,
            time_wait_until: None,
            peer_closed: false,
        }
    }

    /// Bytes received in order and not yet read by the application.
    pub fn received(&self) -> (r: &[u8])
        ensures
            r@ == self@.received,
    {
        self.received.as_slice()
    }

    /// The segment this connection emits next with the given control bits and payload.
    pub fn segment(&self, socket: TcpSocket, flags: u8, payload: Vec<u8>) -> (s: TcpSegment)
        requires
            connection_wf(self@),
        ensures
            s@ == emitted(self@, socket, flags, payload@),
    {
        TcpSegment {
            source_port: socket.local_port,
            destination_port: socket.remote_port,
            sequence: self.send_next,
            acknowledgment: self.receive_next,
            flags,
            window: (RECEIVE_LIMIT - self.received.len()) as u16,
            options: Vec::new(),
            payload,
        }
    }

    /// Emit a segment, advance the send sequence, and await acknowledgment of anything that
    /// occupies sequence space.
    pub fn send(&mut self, socket: TcpSocket, flags: u8, payload: Vec<u8>, now: u64) -> (s:
        TcpSegment)
        requires
            connection_wf(old(self)@),
            payload@.len() + 2 <= u32::MAX,
        ensures
            (final(self)@, s@) == send_spec(old(self)@, socket, flags, payload@, now),
    {
        let segment = self.segment(socket, flags, payload);
        let len = segment.sequence_len();
        self.send_next = self.send_next.wrapping_add(len);
        if len != 0 {
            self.outstanding = Some(
                Outstanding {
                    segment: copy_segment(&segment),
                    deadline: now.saturating_add(RETRANSMIT_US),
                    retries: 0,
                },
            );
        }
        self.last_activity = now;
        proof {
            let v = self@;
            assert(v.outstanding == send_spec(old(self)@, socket, flags, payload@, now).0.outstanding);
        }
        segment
    }

    fn enter_time_wait(&mut self, now: u64)
        ensures
            final(self)@ == time_wait(old(self)@, now),
    {
        self.state = TcpState::TimeWait;
        self.time_wait_until = Some(now.saturating_add(TIME_WAIT_US));
    }

    /// Whether the connection survives a tick at `now`.
    pub fn lingers(&self, now: u64) -> (r: bool)
        ensures
            r == lingers(self@, now),
    {
        !matches!(self.state, TcpState::Closed) && now.saturating_sub(self.last_activity) < IDLE_US
            && match self.time_wait_until {
            Some(deadline) => deadline > now,
            None => true,
        }
    }

    /// Check the retransmission timer at `now`; return the segment to send again, if any.
    pub fn retransmit_due(&mut self, now: u64) -> (r: Option<TcpSegment>)
        requires
            old(self)@.retransmissions < u64::MAX,
        ensures
            final(self)@ == retransmit_step(old(self)@, now).0,
            match r {
                Some(s) => retransmit_step(old(self)@, now).1 == Some(s@),
                None => retransmit_step(old(self)@, now).1 is None,
            },
    {
        let mut taken: Option<Outstanding> = None;
        std::mem::swap(&mut taken, &mut self.outstanding);
        match taken {
            None => None,
            Some(pending) => {
                if pending.deadline > now {
                    self.outstanding = Some(pending);
                    None
                } else if pending.retries >= MAX_RETRIES {
                    self.outstanding = Some(pending);
                    self.state = TcpState::Closed;
                    None
                } else {
                    let retries = pending.retries + 1;
                    let again = copy_segment(&pending.segment);
                    self.outstanding = Some(
                        Outstanding {
                            segment: pending.segment,
                            deadline: now.saturating_add(RETRANSMIT_US << retries),
                            retries,
                        },
                    );
                    self.retransmissions = self.retransmissions + 1;
                    Some(again)
                }
            },
        }
    }

    /// Take the received bytes out of the buffer.
    pub fn drain_received(&mut self) -> (data: Vec<u8>)
        ensures
            data@ == old(self)@.received,
            final(self)@ == (ConnectionView { received: Seq::empty(), ..old(self)@ }),
    {
        let mut data: Vec<u8> = Vec::new();
        std::mem::swap(&mut data, &mut self.received);
        assert(self@.received =~= Seq::<u8>::empty());
        data
    }

    /// Process one segment addressed to this connection and return at most one reply.
    pub fn receive(&mut self, socket: TcpSocket, segment: TcpSegment, now: u64) -> (r: Option<
        TcpSegment,
    >)
        requires
            connection_wf(old(self)@),
        ensures
            connection_wf(final(self)@),
            final(self)@ == receive_spec(old(self)@, socket, segment@, now).0,
            match r {
                Some(reply) => receive_spec(old(self)@, socket, segment@, now).1 == Some(reply@),
                None => receive_spec(old(self)@, socket, segment@, now).1 is None,
            },
    {
        proof {
            lemma_flag_union(segment.flags);
        }
        if matches!(self.state, TcpState::Closed) {
            return None;
        }
        if segment.contains(RST) {
            let valid = if matches!(self.state, TcpState::SynSent) {
                segment.contains(ACK) && segment.acknowledgment == self.send_next
            } else {
                segment.sequence == self.receive_next
            };
            if valid {
                self.state = TcpState::Closed;
                self.outstanding = None;
            }
            return None;
        }
        if matches!(self.state, TcpState::SynSent) {
            if segment.contains(SYN | ACK) && segment.acknowledgment == self.send_next {
                self.receive_next = segment.sequence.wrapping_add(1);
                self.peer_window = segment.window;
                self.outstanding = None;
                self.state = TcpState::Established;
                self.last_activity = now;
                return Some(self.segment(socket, ACK, Vec::new()));
            }
            return None;
        }
        if matches!(self.state, TcpState::SynReceived) && segment.contains(SYN)
            && segment.sequence.wrapping_add(1) == self.receive_next {
            return match &self.outstanding {
                Some(pending) => {
                    let copy = copy_segment(&pending.segment);
                    assert(self@.outstanding == Some((pending.segment@, pending.deadline, pending.retries)));
                    Some(copy)
                },
                None => None,
            };
        }
        if segment.sequence != self.receive_next {
            return Some(self.segment(socket, ACK, Vec::new()));
        }
        if !segment.contains(ACK) {
            return None;
        }
        if segment.acknowledgment == self.send_next {
            self.outstanding = None;
            if matches!(self.state, TcpState::SynReceived) {
                self.state = TcpState::Established;
            }
            if matches!(self.state, TcpState::LastAck) {
                self.state = TcpState::Closed;
                return None;
            }
            if matches!(self.state, TcpState::FinWait) && self.peer_closed {
                self.enter_time_wait(now);
            }
        } else if matches!(self.state, TcpState::SynReceived) {
            return None;
        }
        self.last_activity = now;
        self.peer_window = segment.window;
        if matches!(self.state, TcpState::TimeWait) {
            return Some(self.segment(socket, ACK, Vec::new()));
        }
        if self.peer_closed {
            return None;
        }
        if segment.payload.len() > RECEIVE_LIMIT - self.received.len() {
            return Some(self.segment(socket, ACK, Vec::new()));
        }
        let data = segment.payload.len() > 0;
        self.receive_next = self.receive_next.wrapping_add(segment.payload.len() as u32);
        let mut payload = segment.payload;
        self.received.append(&mut payload);
        let fin = segment.flags & FIN == FIN;
        if fin {
            self.receive_next = self.receive_next.wrapping_add(1);
            self.peer_closed = true;
            if matches!(self.state, TcpState::FinWait) {
                if self.outstanding.is_none() {
                    self.enter_time_wait(now);
                }
            } else {
                self.state = TcpState::CloseWait;
            }
        }
        if data || fin {
            Some(self.segment(socket, ACK, Vec::new()))
        } else {
            None
        }
    }
}

/// A closed connection ignores every segment and never answers.
pub proof fn lemma_closed_absorbs(c: ConnectionView, socket: TcpSocket, s: SegmentView, now: u64)
    requires
        c.state == TcpState::Closed,
    ensures
        receive_spec(c, socket, s, now).0 == c,
        receive_spec(c, socket, s, now).1 is None,
{
}

/// A reset is never answered, and it either closes the connection or changes nothing.
pub proof fn lemma_reset_never_answered(
    c: ConnectionView,
    socket: TcpSocket,
    s: SegmentView,
    now: u64,
)
    requires
        has_flags(s.flags, RST),
    ensures
        receive_spec(c, socket, s, now).1 is None,
        receive_spec(c, socket, s, now).0 == c || receive_spec(c, socket, s, now).0.state
            == TcpState::Closed,
{
}

/// Received bytes are only ever appended to, in order: either nothing is delivered or the
/// whole payload of the segment is, and the receive buffer stays within its limit.
pub proof fn lemma_delivery_appends_in_order(
    c: ConnectionView,
    socket: TcpSocket,
    s: SegmentView,
    now: u64,
)
    requires
        connection_wf(c),
    ensures
        receive_spec(c, socket, s, now).0.received == c.received || receive_spec(
            c,
            socket,
            s,
            now,
        ).0.received == c.received + s.payload,
        connection_wf(receive_spec(c, socket, s, now).0),
{
}

/// A segment that is not the next expected one changes nothing and is answered with an
/// acknowledgment of what has been received so far.
pub proof fn lemma_out_of_order_acknowledged(
    c: ConnectionView,
    socket: TcpSocket,
    s: SegmentView,
    now: u64,
)
    requires
        c.state != TcpState::Closed,
        c.state != TcpState::SynSent,
        c.state != TcpState::SynReceived,
        !has_flags(s.flags, RST),
        s.sequence != c.receive_next,
    ensures
        receive_spec(c, socket, s, now).0 == c,
        receive_spec(c, socket, s, now).1 == ack_of(c, socket),
{
}


} // verus!
