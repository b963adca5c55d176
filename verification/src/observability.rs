//! Debug topics, packet classes and per-protocol counters.
use crate::keyed::{has_key, key_index, keys_unique, lemma_key_index, lemma_put_unique, put, value_of};
use crate::decimal::decimal_text;
use crate::report::{finish, number_chars, push_right, push_str, right_aligned};
use vstd::prelude::*;

verus! {

/// Independently selectable simulator debug topics.
#[derive(Debug, Clone, Copy, PartialEq, Eq, PartialOrd, Ord, Structural)]
pub enum DebugTopic {
    Packet,
    Arp,
    Icmp,
    IpPacket,
    IpRouting,
    Dhcp,
    OspfPacket,
    OspfAdjacency,
    SpanningTree,
    Lacp,
    Nat,
    Bgp,
}

/// Packet classification for counters and filtering; never changes forwarding decisions.
#[derive(Debug, Clone, Copy, PartialEq, Eq, PartialOrd, Ord, Structural)]
pub enum PacketProtocol {
    Ethernet,
    Arp,
    Ipv4,
    Icmp,
    Udp,
    Tcp,
    Dhcp,
    Dns,
    Ntp,
    Ospf,
    Bgp,
    Stp,
    Lacp,
    Ipv6,
    Icmpv6,
    Malformed,
}

/// Interface-boundary protocol counters; packet drops remain separately attributed by reason.
#[derive(Debug, Clone, Copy, Default, PartialEq, Eq, Structural)]
pub struct ProtocolCounters {
    pub received: u64,
    pub transmitted: u64,
    pub dropped: u64,
    pub rx_bytes: u64,
    pub tx_bytes: u64,
}

/// Whether a packet class is carried over IP (version 4 or 6).
pub open spec fn carried_over_ip(p: PacketProtocol) -> bool {
    !(p == PacketProtocol::Ethernet || p == PacketProtocol::Arp || p == PacketProtocol::Stp || p
        == PacketProtocol::Lacp || p == PacketProtocol::Malformed)
}

/// The packet classes that a debug topic traces.
pub open spec fn topic_covers(topic: DebugTopic, p: PacketProtocol) -> bool {
    match topic {
        DebugTopic::Packet => true,
        DebugTopic::Arp => p == PacketProtocol::Arp,
        DebugTopic::Icmp => p == PacketProtocol::Icmp || p == PacketProtocol::Icmpv6,
        DebugTopic::IpPacket => carried_over_ip(p),
        DebugTopic::Dhcp => p == PacketProtocol::Dhcp,
        DebugTopic::OspfPacket => p == PacketProtocol::Ospf,
        DebugTopic::SpanningTree => p == PacketProtocol::Stp,
        DebugTopic::Lacp => p == PacketProtocol::Lacp,
        DebugTopic::Bgp => p == PacketProtocol::Bgp,
        DebugTopic::IpRouting | DebugTopic::OspfAdjacency | DebugTopic::Nat => false,
    }
}

impl DebugTopic {
    /// Whether a packet class belongs to this topic; state-only topics return false.
    pub fn matches(self, protocol: PacketProtocol) -> (r: bool)
        ensures
            r == topic_covers(self, protocol),
    {
        match self {
            DebugTopic::Packet => true,
            DebugTopic::Arp => matches!(protocol, PacketProtocol::Arp),
            DebugTopic::Icmp => matches!(protocol, PacketProtocol::Icmp | PacketProtocol::Icmpv6),
            DebugTopic::IpPacket => matches!(
                protocol,
                PacketProtocol::Ipv4 | PacketProtocol::Icmp | PacketProtocol::Udp
                    | PacketProtocol::Tcp | PacketProtocol::Dhcp | PacketProtocol::Dns
                    | PacketProtocol::Ntp | PacketProtocol::Ospf | PacketProtocol::Bgp
                    | PacketProtocol::Ipv6 | PacketProtocol::Icmpv6
            ),
            DebugTopic::Dhcp => matches!(protocol, PacketProtocol::Dhcp),
            DebugTopic::OspfPacket => matches!(protocol, PacketProtocol::Ospf),
            DebugTopic::SpanningTree => matches!(protocol, PacketProtocol::Stp),
            DebugTopic::Lacp => matches!(protocol, PacketProtocol::Lacp),
            DebugTopic::Bgp => matches!(protocol, PacketProtocol::Bgp),
            DebugTopic::IpRouting | DebugTopic::OspfAdjacency | DebugTopic::Nat => false,
        }
    }
}

/// Every packet class that a specific topic traces is also traced by the `Packet` topic,
/// and every class traced by a protocol-specific IP topic is traced by `IpPacket`.
pub proof fn lemma_topics_nest(topic: DebugTopic, p: PacketProtocol)
    requires
        topic_covers(topic, p),
    ensures
        topic_covers(DebugTopic::Packet, p),
        (topic == DebugTopic::Icmp || topic == DebugTopic::Dhcp || topic == DebugTopic::OspfPacket
            || topic == DebugTopic::Bgp) ==> topic_covers(DebugTopic::IpPacket, p),
{
}

/// Every debug topic, in order.
pub open spec fn all_topics() -> Seq<DebugTopic> {
    seq![
        DebugTopic::Packet,
        DebugTopic::Arp,
        DebugTopic::Icmp,
        DebugTopic::IpPacket,
        DebugTopic::IpRouting,
        DebugTopic::Dhcp,
        DebugTopic::OspfPacket,
        DebugTopic::OspfAdjacency,
        DebugTopic::SpanningTree,
        DebugTopic::Lacp,
        DebugTopic::Nat,
        DebugTopic::Bgp,
    ]
}

/// Every packet class, in order.
pub open spec fn all_protocols() -> Seq<PacketProtocol> {
    seq![
        PacketProtocol::Ethernet,
        PacketProtocol::Arp,
        PacketProtocol::Ipv4,
        PacketProtocol::Icmp,
        PacketProtocol::Udp,
        PacketProtocol::Tcp,
        PacketProtocol::Dhcp,
        PacketProtocol::Dns,
        PacketProtocol::Ntp,
        PacketProtocol::Ospf,
        PacketProtocol::Bgp,
        PacketProtocol::Stp,
        PacketProtocol::Lacp,
        PacketProtocol::Ipv6,
        PacketProtocol::Icmpv6,
        PacketProtocol::Malformed,
    ]
}

/// The members of `all`, in its order, that `enabled` holds.
pub open spec fn ordered_topics(all: Seq<DebugTopic>, enabled: Set<DebugTopic>) -> Seq<DebugTopic>
    decreases all.len(),
{
    if all.len() == 0 {
        Seq::empty()
    } else {
        let rest = ordered_topics(all.drop_last(), enabled);
        if enabled.contains(all.last()) {
            rest.push(all.last())
        } else {
            rest
        }
    }
}

/// The counted classes of `all`, in its order, with their counters.
pub open spec fn ordered_counters(all: Seq<PacketProtocol>, s: Seq<(PacketProtocol, ProtocolCounters)>) -> Seq<(PacketProtocol, ProtocolCounters)>
    decreases all.len(),
{
    if all.len() == 0 {
        Seq::empty()
    } else {
        let rest = ordered_counters(all.drop_last(), s);
        if has_key(s, all.last()) {
            rest.push((all.last(), value_of(s, all.last())))
        } else {
            rest
        }
    }
}

/// The counters after one observation: `Some(true)` a transmitted packet of `bytes` bytes,
/// `Some(false)` a received one, `None` a drop; each count stops at its largest value.
pub open spec fn counted(c: ProtocolCounters, transmit: Option<bool>, bytes: u64) -> ProtocolCounters {
    match transmit {
        Some(true) => ProtocolCounters {
            transmitted: if c.transmitted == u64::MAX { c.transmitted } else { (c.transmitted + 1) as u64 },
            tx_bytes: if c.tx_bytes + bytes > u64::MAX { u64::MAX } else { (c.tx_bytes + bytes) as u64 },
            ..c
        },
        Some(false) => ProtocolCounters {
            received: if c.received == u64::MAX { c.received } else { (c.received + 1) as u64 },
            rx_bytes: if c.rx_bytes + bytes > u64::MAX { u64::MAX } else { (c.rx_bytes + bytes) as u64 },
            ..c
        },
        None => ProtocolCounters { dropped: if c.dropped == u64::MAX { c.dropped } else { (c.dropped + 1) as u64 }, ..c },
    }
}

/// Counters that start at zero.
pub open spec fn zero_protocol_counters() -> ProtocolCounters {
    ProtocolCounters { received: 0, transmitted: 0, dropped: 0, rx_bytes: 0, tx_bytes: 0 }
}

/// The debugging selection and per-protocol counters of a device.
#[derive(Debug, Clone, PartialEq, Eq)]
pub struct Observability {
    topics: Vec<DebugTopic>,
    counters: Vec<(PacketProtocol, ProtocolCounters)>,
}

/// The debugging selection and counters as mathematical values.
pub struct ObservabilityView {
    pub topics: Set<DebugTopic>,
    pub counters: Seq<(PacketProtocol, ProtocolCounters)>,
}

impl View for Observability {
    type V = ObservabilityView;

    closed spec fn view(&self) -> ObservabilityView {
        ObservabilityView { topics: self.topics@.to_set(), counters: self.counters@ }
    }
}

/// Counters kept at most once per class.
pub open spec fn observability_wf(v: ObservabilityView) -> bool {
    keys_unique(v.counters)
}

/// The topics in order, computed.
fn every_topic() -> (r: Vec<DebugTopic>)
    ensures
        r@ == all_topics(),
{
    let r = vec![
        DebugTopic::Packet,
        DebugTopic::Arp,
        DebugTopic::Icmp,
        DebugTopic::IpPacket,
        DebugTopic::IpRouting,
        DebugTopic::Dhcp,
        DebugTopic::OspfPacket,
        DebugTopic::OspfAdjacency,
        DebugTopic::SpanningTree,
        DebugTopic::Lacp,
        DebugTopic::Nat,
        DebugTopic::Bgp,
    ];
    assert(r@ =~= all_topics());
    r
}

/// The packet classes in order, computed.
fn every_protocol() -> (r: Vec<PacketProtocol>)
    ensures
        r@ == all_protocols(),
{
    let r = vec![
        PacketProtocol::Ethernet,
        PacketProtocol::Arp,
        PacketProtocol::Ipv4,
        PacketProtocol::Icmp,
        PacketProtocol::Udp,
        PacketProtocol::Tcp,
        PacketProtocol::Dhcp,
        PacketProtocol::Dns,
        PacketProtocol::Ntp,
        PacketProtocol::Ospf,
        PacketProtocol::Bgp,
        PacketProtocol::Stp,
        PacketProtocol::Lacp,
        PacketProtocol::Ipv6,
        PacketProtocol::Icmpv6,
        PacketProtocol::Malformed,
    ];
    assert(r@ =~= all_protocols());
    r
}

impl Observability {
    /// No debugging and no counters.
    pub fn new() -> (r: Observability)
        ensures
            r@.topics == Set::<DebugTopic>::empty(),
            r@.counters == Seq::<(PacketProtocol, ProtocolCounters)>::empty(),
    {
        let r = Observability { topics: Vec::new(), counters: Vec::new() };
        assert(r@.topics =~= Set::<DebugTopic>::empty());
        r
    }

    /// Where `topic` is among the enabled topics.
    fn topic_position(&self, topic: DebugTopic) -> (r: Option<usize>)
        ensures
            match r {
                Some(i) => i < self.topics@.len() && self.topics@[i as int] == topic,
                None => !self.topics@.contains(topic),
            },
    {
        let mut i: usize = 0;
        while i < self.topics.len()
            invariant
                i <= self.topics@.len(),
                forall|j: int| 0 <= j < i ==> self.topics@[j] != topic,
            decreases self.topics@.len() - i,
        {
            if self.topics[i] == topic {
                return Some(i);
            }
            i = i + 1;
        }
        None
    }

    /// Enable or disable debugging of `topic`.
    pub fn set_debug(&mut self, topic: DebugTopic, enabled: bool)
        ensures
            final(self)@.topics == if enabled {
                old(self)@.topics.insert(topic)
            } else {
                old(self)@.topics.remove(topic)
            },
            final(self)@.counters == old(self)@.counters,
    {
        let ghost before = self.topics@;
        if enabled {
            if self.topic_position(topic).is_none() {
                self.topics.push(topic);
                proof {
                    assert forall|y: DebugTopic| self.topics@.contains(y) == (before.contains(y) || y == topic) by {
                        if self.topics@.contains(y) {
                            let k = choose|k: int| 0 <= k < self.topics@.len() && self.topics@[k] == y;
                            if k < before.len() {
                                assert(before[k] == y);
                            }
                        }
                        if before.contains(y) {
                            let k = choose|k: int| 0 <= k < before.len() && before[k] == y;
                            assert(self.topics@[k] == y);
                        }
                        if y == topic {
                            assert(self.topics@[before.len() as int] == y);
                        }
                    }
                    assert(self.topics@.to_set() =~= before.to_set().insert(topic));
                }
            } else {
                proof {
                    assert(before.to_set().insert(topic) =~= before.to_set());
                }
            }
        } else {
            let mut out: Vec<DebugTopic> = Vec::new();
            let mut i: usize = 0;
            while i < self.topics.len()
                invariant
                    self.topics@ == before,
                    i <= before.len(),
                    forall|x: DebugTopic| out@.contains(x) <==> x != topic && exists|j: int| 0 <= j < i && before[j] == x,
                decreases before.len() - i,
            {
                let t = self.topics[i];
                let ghost prev = out@;
                if t != topic {
                    out.push(t);
                }
                proof {
                    assert forall|x: DebugTopic| out@.contains(x) <==> x != topic && exists|j: int| 0 <= j < i + 1 && before[j] == x by {
                        if out@.contains(x) && !prev.contains(x) {
                            let k = choose|k: int| 0 <= k < out@.len() && out@[k] == x;
                            if k < prev.len() {
                                assert(prev[k] == x);
                            }
                            assert(before[i as int] == x);
                        }
                        if prev.contains(x) {
                            let k = choose|k: int| 0 <= k < prev.len() && prev[k] == x;
                            assert(out@[k] == x);
                        }
                        if x != topic && exists|j: int| 0 <= j < i + 1 && before[j] == x {
                            let j = choose|j: int| 0 <= j < i + 1 && before[j] == x;
                            if j == i {
                                assert(out@[out@.len() - 1] == x);
                            }
                        }
                    }
                }
                i = i + 1;
            }
            self.topics = out;
            proof {
                assert forall|x: DebugTopic| self.topics@.to_set().contains(x) == before.to_set().remove(topic).contains(x) by {
                    if before.contains(x) {
                        let j = choose|j: int| 0 <= j < before.len() && before[j] == x;
                    }
                }
                assert(self.topics@.to_set() =~= before.to_set().remove(topic));
            }
        }
    }

    /// Stop all debugging.
    pub fn undebug_all(&mut self)
        ensures
            final(self)@.topics == Set::<DebugTopic>::empty(),
            final(self)@.counters == old(self)@.counters,
    {
        self.topics = Vec::new();
        assert(self@.topics =~= Set::<DebugTopic>::empty());
    }

    /// The enabled topics, in topic order.
    pub fn debug_topics(&self) -> (r: Vec<DebugTopic>)
        ensures
            r@ == ordered_topics(all_topics(), self@.topics),
    {
        let all = every_topic();
        let mut out: Vec<DebugTopic> = Vec::new();
        let mut i: usize = 0;
        while i < all.len()
            invariant
                all@ == all_topics(),
                i <= all@.len(),
                out@ == ordered_topics(all@.take(i as int), self@.topics),
            decreases all@.len() - i,
        {
            let t = all[i];
            proof {
                assert(all@.take(i + 1).drop_last() =~= all@.take(i as int));
                assert(all@.take(i + 1).last() == t);
            }
            if self.topic_position(t).is_some() {
                out.push(t);
            }
            i = i + 1;
        }
        proof {
            assert(all@.take(all@.len() as int) =~= all@);
        }
        out
    }

    /// The counters of every class observed so far, in class order.
    pub fn protocol_counters(&self) -> (r: Vec<(PacketProtocol, ProtocolCounters)>)
        requires
            observability_wf(self@),
        ensures
            r@ == ordered_counters(all_protocols(), self@.counters),
    {
        let all = every_protocol();
        let mut out: Vec<(PacketProtocol, ProtocolCounters)> = Vec::new();
        let mut i: usize = 0;
        while i < all.len()
            invariant
                all@ == all_protocols(),
                observability_wf(self@),
                i <= all@.len(),
                out@ == ordered_counters(all@.take(i as int), self@.counters),
            decreases all@.len() - i,
        {
            let p = all[i];
            proof {
                assert(all@.take(i + 1).drop_last() =~= all@.take(i as int));
                assert(all@.take(i + 1).last() == p);
            }
            match self.counter_position(p) {
                Some(k) => out.push((p, self.counters[k].1)),
                None => {},
            }
            i = i + 1;
        }
        proof {
            assert(all@.take(all@.len() as int) =~= all@);
        }
        out
    }

    /// Where the counters of `protocol` are.
    fn counter_position(&self, protocol: PacketProtocol) -> (r: Option<usize>)
        requires
            observability_wf(self@),
        ensures
            match r {
                Some(i) => i < self@.counters.len() && has_key(self@.counters, protocol) && key_index(self@.counters, protocol) == i
                    && self@.counters[i as int].1 == value_of(self@.counters, protocol),
                None => !has_key(self@.counters, protocol),
            },
    {
        let mut i: usize = 0;
        while i < self.counters.len()
            invariant
                observability_wf(self@),
                i <= self@.counters.len(),
                forall|j: int| 0 <= j < i ==> #[trigger] self@.counters[j].0 != protocol,
            decreases self@.counters.len() - i,
        {
            if self.counters[i].0 == protocol {
                proof {
                    lemma_key_index(self@.counters, i as int);
                }
                return Some(i);
            }
            i = i + 1;
        }
        None
    }

    /// Account for one observation of `protocol`: `Some(true)` a transmitted packet of
    /// `bytes` bytes, `Some(false)` a received one, `None` a drop.
    pub fn record_protocol(&mut self, protocol: PacketProtocol, transmit: Option<bool>, bytes: usize)
        requires
            observability_wf(old(self)@),
        ensures
            observability_wf(final(self)@),
            final(self)@.topics == old(self)@.topics,
            final(self)@.counters == put(
                old(self)@.counters,
                protocol,
                counted(
                    if has_key(old(self)@.counters, protocol) {
                        value_of(old(self)@.counters, protocol)
                    } else {
                        zero_protocol_counters()
                    },
                    transmit,
                    bytes as u64,
                ),
            ),
    {
        let ghost before = self@;
        let pos = self.counter_position(protocol);
        let mut c = match pos {
            Some(i) => self.counters[i].1,
            None => ProtocolCounters { received: 0, transmitted: 0, dropped: 0, rx_bytes: 0, tx_bytes: 0 },
        };
        match transmit {
            Some(true) => {
                c.transmitted = c.transmitted.saturating_add(1);
                c.tx_bytes = c.tx_bytes.saturating_add(bytes as u64);
            },
            Some(false) => {
                c.received = c.received.saturating_add(1);
                c.rx_bytes = c.rx_bytes.saturating_add(bytes as u64);
            },
            None => {
                c.dropped = c.dropped.saturating_add(1);
            },
        }
        proof {
            lemma_put_unique(before.counters, protocol, c);
        }
        match pos {
            Some(i) => self.counters.set(i, (protocol, c)),
            None => self.counters.push((protocol, c)),
        }
        proof {
            assert(self@.topics =~= before.topics);
        }
    }
}


/// The name of a topic in the debugging report.
pub open spec fn topic_name(t: DebugTopic) -> Seq<char> {
    match t {
        DebugTopic::Packet => "Packet"@,
        DebugTopic::Arp => "Arp"@,
        DebugTopic::Icmp => "Icmp"@,
        DebugTopic::IpPacket => "IpPacket"@,
        DebugTopic::IpRouting => "IpRouting"@,
        DebugTopic::Dhcp => "Dhcp"@,
        DebugTopic::OspfPacket => "OspfPacket"@,
        DebugTopic::OspfAdjacency => "OspfAdjacency"@,
        DebugTopic::SpanningTree => "SpanningTree"@,
        DebugTopic::Lacp => "Lacp"@,
        DebugTopic::Nat => "Nat"@,
        DebugTopic::Bgp => "Bgp"@,
    }
}

/// The name of a packet class in the counters report.
pub open spec fn protocol_name(p: PacketProtocol) -> Seq<char> {
    match p {
        PacketProtocol::Ethernet => "Ethernet"@,
        PacketProtocol::Arp => "Arp"@,
        PacketProtocol::Ipv4 => "Ipv4"@,
        PacketProtocol::Icmp => "Icmp"@,
        PacketProtocol::Udp => "Udp"@,
        PacketProtocol::Tcp => "Tcp"@,
        PacketProtocol::Dhcp => "Dhcp"@,
        PacketProtocol::Dns => "Dns"@,
        PacketProtocol::Ntp => "Ntp"@,
        PacketProtocol::Ospf => "Ospf"@,
        PacketProtocol::Bgp => "Bgp"@,
        PacketProtocol::Stp => "Stp"@,
        PacketProtocol::Lacp => "Lacp"@,
        PacketProtocol::Ipv6 => "Ipv6"@,
        PacketProtocol::Icmpv6 => "Icmpv6"@,
        PacketProtocol::Malformed => "Malformed"@,
    }
}

impl DebugTopic {
    /// The topic's name.
    pub fn name(self) -> (r: &'static str)
        ensures
            r@ == topic_name(self),
    {
        match self {
            DebugTopic::Packet => "Packet",
            DebugTopic::Arp => "Arp",
            DebugTopic::Icmp => "Icmp",
            DebugTopic::IpPacket => "IpPacket",
            DebugTopic::IpRouting => "IpRouting",
            DebugTopic::Dhcp => "Dhcp",
            DebugTopic::OspfPacket => "OspfPacket",
            DebugTopic::OspfAdjacency => "OspfAdjacency",
            DebugTopic::SpanningTree => "SpanningTree",
            DebugTopic::Lacp => "Lacp",
            DebugTopic::Nat => "Nat",
            DebugTopic::Bgp => "Bgp",
        }
    }
}

impl PacketProtocol {
    /// The class's name.
    pub fn name(self) -> (r: &'static str)
        ensures
            r@ == protocol_name(self),
    {
        match self {
            PacketProtocol::Ethernet => "Ethernet",
            PacketProtocol::Arp => "Arp",
            PacketProtocol::Ipv4 => "Ipv4",
            PacketProtocol::Icmp => "Icmp",
            PacketProtocol::Udp => "Udp",
            PacketProtocol::Tcp => "Tcp",
            PacketProtocol::Dhcp => "Dhcp",
            PacketProtocol::Dns => "Dns",
            PacketProtocol::Ntp => "Ntp",
            PacketProtocol::Ospf => "Ospf",
            PacketProtocol::Bgp => "Bgp",
            PacketProtocol::Stp => "Stp",
            PacketProtocol::Lacp => "Lacp",
            PacketProtocol::Ipv6 => "Ipv6",
            PacketProtocol::Icmpv6 => "Icmpv6",
            PacketProtocol::Malformed => "Malformed",
        }
    }
}

/// One line per enabled topic.
pub open spec fn debugging_lines(topics: Seq<DebugTopic>) -> Seq<char>
    decreases topics.len(),
{
    if topics.len() == 0 {
        Seq::empty()
    } else {
        debugging_lines(topics.drop_last()) + topic_name(topics.last()) + " debugging is enabled.\n"@
    }
}

/// The debugging report of the enabled topics, in topic order.
pub open spec fn debugging_report(topics: Seq<DebugTopic>) -> Seq<char> {
    if topics.len() == 0 {
        "All debugging is disabled.\n"@
    } else {
        debugging_lines(topics)
    }
}

/// The heading of the counters report.
pub open spec fn counters_heading() -> Seq<char> {
    "Protocol       RX packets   TX packets        Drops     RX bytes     TX bytes\n"@
}

/// The counters line of one class.
pub open spec fn counters_line(p: PacketProtocol, c: ProtocolCounters) -> Seq<char> {
    protocol_name(p) + ": "@ + right_aligned(decimal_text(c.received as nat), 12) + " "@
        + right_aligned(decimal_text(c.transmitted as nat), 12) + " "@ + right_aligned(
        decimal_text(c.dropped as nat),
        12,
    ) + " "@ + right_aligned(decimal_text(c.rx_bytes as nat), 12) + " "@ + right_aligned(
        decimal_text(c.tx_bytes as nat),
        12,
    ) + "\n"@
}

/// One counters line per class.
pub open spec fn counters_lines(s: Seq<(PacketProtocol, ProtocolCounters)>) -> Seq<char>
    decreases s.len(),
{
    if s.len() == 0 {
        Seq::empty()
    } else {
        counters_lines(s.drop_last()) + counters_line(s.last().0, s.last().1)
    }
}

impl Observability {
    /// The enabled debugging topics, one line each in topic order, or a line saying that
    /// none is.
    pub fn show_debugging(&self) -> (r: String)
        ensures
            r@ == debugging_report(ordered_topics(all_topics(), self@.topics)),
    {
        let topics = self.debug_topics();
        let mut out: Vec<char> = Vec::new();
        if topics.len() == 0 {
            push_str(&mut out, "All debugging is disabled.\n");
            return finish(out);
        }
        let mut i: usize = 0;
        while i < topics.len()
            invariant
                i <= topics@.len(),
                out@ == debugging_lines(topics@.take(i as int)),
            decreases topics@.len() - i,
        {
            proof {
                assert(topics@.take(i + 1).drop_last() =~= topics@.take(i as int));
            }
            push_str(&mut out, topics[i].name());
            push_str(&mut out, " debugging is enabled.\n");
            i = i + 1;
        }
        proof {
            assert(topics@.take(i as int) =~= topics@);
        }
        finish(out)
    }

    /// The counters of every class observed so far, one line each in class order, under a
    /// heading.
    pub fn show_protocol_counters(&self) -> (r: String)
        requires
            observability_wf(self@),
        ensures
            r@ == counters_heading() + counters_lines(ordered_counters(all_protocols(), self@.counters)),
    {
        let counters = self.protocol_counters();
        let mut out: Vec<char> = Vec::new();
        push_str(&mut out, "Protocol       RX packets   TX packets        Drops     RX bytes     TX bytes\n");
        let mut i: usize = 0;
        while i < counters.len()
            invariant
                i <= counters@.len(),
                out@ == counters_heading() + counters_lines(counters@.take(i as int)),
            decreases counters@.len() - i,
        {
            proof {
                assert(counters@.take(i + 1).drop_last() =~= counters@.take(i as int));
            }
            let (p, c) = counters[i];
            push_str(&mut out, p.name());
            push_str(&mut out, ": ");
            push_right(&mut out, &number_chars(c.received), 12);
            push_str(&mut out, " ");
            push_right(&mut out, &number_chars(c.transmitted), 12);
            push_str(&mut out, " ");
            push_right(&mut out, &number_chars(c.dropped), 12);
            push_str(&mut out, " ");
            push_right(&mut out, &number_chars(c.rx_bytes), 12);
            push_str(&mut out, " ");
            push_right(&mut out, &number_chars(c.tx_bytes), 12);
            push_str(&mut out, "\n");
            proof {
                assert(out@ =~= counters_heading() + counters_lines(counters@.take(i as int))
                    + counters_line(p, c));
            }
            i = i + 1;
        }
        proof {
            assert(counters@.take(i as int) =~= counters@);
        }
        finish(out)
    }
}

} // verus!
