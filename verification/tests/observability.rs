use rios::{DebugTopic, Observability, PacketProtocol, ProtocolCounters};

#[test]
fn debugging_is_selected_per_topic() {
    let mut o = Observability::new();
    assert!(o.debug_topics().is_empty());
    o.set_debug(DebugTopic::Bgp, true);
    o.set_debug(DebugTopic::Arp, true);
    o.set_debug(DebugTopic::Arp, true);
    assert_eq!(o.debug_topics(), vec![DebugTopic::Arp, DebugTopic::Bgp]);
    o.set_debug(DebugTopic::Arp, false);
    assert_eq!(o.debug_topics(), vec![DebugTopic::Bgp]);
    o.set_debug(DebugTopic::Nat, false);
    assert_eq!(o.debug_topics(), vec![DebugTopic::Bgp]);
    o.undebug_all();
    assert!(o.debug_topics().is_empty());
}

#[test]
fn protocol_counters_count_each_observation() {
    let mut o = Observability::new();
    o.record_protocol(PacketProtocol::Tcp, Some(true), 60);
    o.record_protocol(PacketProtocol::Arp, Some(false), 42);
    o.record_protocol(PacketProtocol::Tcp, Some(false), 40);
    o.record_protocol(PacketProtocol::Tcp, None, 1500);
    assert_eq!(
        o.protocol_counters(),
        vec![
            (
                PacketProtocol::Arp,
                ProtocolCounters { received: 1, transmitted: 0, dropped: 0, rx_bytes: 42, tx_bytes: 0 }
            ),
            (
                PacketProtocol::Tcp,
                ProtocolCounters { received: 1, transmitted: 1, dropped: 1, rx_bytes: 40, tx_bytes: 60 }
            ),
        ]
    );
    o.set_debug(DebugTopic::Packet, true);
    assert_eq!(o.protocol_counters().len(), 2);
}

#[test]
fn protocol_counters_stop_at_their_largest_value() {
    let mut o = Observability::new();
    o.record_protocol(PacketProtocol::Udp, Some(true), usize::MAX);
    o.record_protocol(PacketProtocol::Udp, Some(true), 1);
    let counters = o.protocol_counters();
    assert_eq!(counters[0].1.transmitted, 2);
    assert_eq!(counters[0].1.tx_bytes, u64::MAX);
}
