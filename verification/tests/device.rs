use rios::{
    canonical_interface, interface_sequence, policy_name_valid, valid_address,
    validate_hostname, DebugTopic, DeviceError, DeviceType, InterfaceKind, InterfaceMedia,
    Ipv4Addr, PacketProtocol,
};

fn name(input: &str) -> Option<(String, InterfaceKind)> {
    canonical_interface(input).ok()
}

#[test]
fn interface_families_accept_unambiguous_prefixes() {
    assert_eq!(
        name("Gi0/01"),
        Some(("GigabitEthernet0/1".to_string(), InterfaceKind::GigabitEthernet))
    );
    assert_eq!(
        name("gigabitEthernet 0/1"),
        Some(("GigabitEthernet0/1".to_string(), InterfaceKind::GigabitEthernet))
    );
    assert_eq!(
        name("te1/0/1"),
        Some(("TenGigabitEthernet1/0/1".to_string(), InterfaceKind::TenGigabitEthernet))
    );
    assert_eq!(name("lo0"), Some(("Loopback0".to_string(), InterfaceKind::Loopback)));
    assert_eq!(name("vl10"), Some(("Vlan10".to_string(), InterfaceKind::Vlan)));
    assert_eq!(name("vlan10"), Some(("Vlan10".to_string(), InterfaceKind::Vlan)));
    assert_eq!(name("po1"), Some(("Port-channel1".to_string(), InterfaceKind::PortChannel)));
    assert_eq!(name("port-CH 4096"), Some(("Port-channel4096".to_string(), InterfaceKind::PortChannel)));
    assert_eq!(name("se0/0/0"), Some(("Serial0/0/0".to_string(), InterfaceKind::Serial)));
    assert_eq!(name("con0"), Some(("Console0".to_string(), InterfaceKind::Console)));
    assert_eq!(name("gi9/9"), Some(("GigabitEthernet9/9".to_string(), InterfaceKind::GigabitEthernet)));
    assert_eq!(name("  gi0/1  "), Some(("GigabitEthernet0/1".to_string(), InterfaceKind::GigabitEthernet)));
}

#[test]
fn subinterfaces_need_an_ethernet_parent_and_a_positive_number() {
    assert_eq!(
        name("gi0/0.010"),
        Some(("GigabitEthernet0/0.10".to_string(), InterfaceKind::EthernetSubinterface))
    );
    assert_eq!(
        name("Te1/0/1.4294967295"),
        Some((
            "TenGigabitEthernet1/0/1.4294967295".to_string(),
            InterfaceKind::EthernetSubinterface
        ))
    );
    for bad in ["gi0/0.0", "gi0/0.", ".5", "lo0.1", "gi0/0.1.2", "gi0/0.4294967296", "gi0/0.x"] {
        assert!(name(bad).is_none(), "{bad}");
    }
}

#[test]
fn invalid_interface_names_are_rejected_with_the_input() {
    for bad in [
        "loopback1/1",
        "vlan0",
        "vlan4095",
        "gi-1/0",
        "gi0/+1",
        "gi0",
        "gi0/1/2/3",
        "g 0/1 x",
        "g1 0/1",
        "t",
        "0/1",
        "x0/1",
        "gi0//1",
        "gi0/70000",
        "po0",
        "po4097",
        "{bad}",
    ] {
        assert_eq!(
            canonical_interface(bad),
            Err(DeviceError::InvalidInterface(bad.to_string())),
            "{bad}"
        );
    }
}

#[test]
fn unicode_whitespace_separates_words() {
    assert_eq!(
        name("gi\u{3000}0/1"),
        Some(("GigabitEthernet0/1".to_string(), InterfaceKind::GigabitEthernet))
    );
    assert!(name("g\u{e9} 0/1").is_none());
}

#[test]
fn interface_sequences_split_the_trailing_number() {
    assert_eq!(interface_sequence("GigabitEthernet0/12"), Some(("GigabitEthernet0/", 12)));
    assert_eq!(interface_sequence("Vlan100"), Some(("Vlan", 100)));
    assert_eq!(interface_sequence("Loopback"), None);
    assert_eq!(interface_sequence("123"), None);
    assert_eq!(interface_sequence("Vlan70000"), None);
    assert_eq!(interface_sequence("Port-channel007"), Some(("Port-channel", 7)));
}

#[test]
fn hostnames_and_policy_names() {
    assert!(validate_hostname("EDGE-R1").is_ok());
    assert_eq!(validate_hostname("bad\nname"), Err(DeviceError::InvalidHostname));
    assert!(validate_hostname("").is_err());
    assert!(validate_hostname("1router").is_err());
    assert!(validate_hostname(&"a".repeat(63)).is_ok());
    assert!(validate_hostname(&"a".repeat(64)).is_err());
    assert!(validate_hostname("r\u{e9}").is_err());
    assert!(policy_name_valid("TEN"));
    assert!(policy_name_valid("a_b.c-9"));
    assert!(!policy_name_valid("bad name"));
    assert!(!policy_name_valid(""));
    assert!(policy_name_valid(&"x".repeat(64)));
    assert!(!policy_name_valid(&"x".repeat(65)));
}

#[test]
fn dhcp_addresses_exclude_zero_loopback_and_multicast() {
    assert!(valid_address(Ipv4Addr::new(10, 0, 0, 1)));
    assert!(valid_address(Ipv4Addr::new(223, 255, 255, 255)));
    assert!(!valid_address(Ipv4Addr::new(0, 1, 2, 3)));
    assert!(!valid_address(Ipv4Addr::new(127, 0, 0, 1)));
    assert!(!valid_address(Ipv4Addr::new(224, 0, 0, 5)));
}

#[test]
fn interface_kinds_and_labels() {
    assert!(InterfaceKind::GigabitEthernet.is_ethernet());
    assert!(InterfaceKind::TenGigabitEthernet.is_ethernet());
    assert!(!InterfaceKind::PortChannel.is_ethernet());
    assert!(InterfaceKind::Serial.is_physical());
    assert!(InterfaceKind::Console.is_physical());
    assert!(!InterfaceKind::Vlan.is_physical());
    assert!(!InterfaceKind::EthernetSubinterface.is_physical());
    assert_eq!(DeviceType::Layer3Switch.label(), "L3 Switch");
    assert_eq!(InterfaceMedia::SfpPlus.label(), "SFP+");
}

#[test]
fn debug_topics_select_packet_classes() {
    assert!(DebugTopic::Packet.matches(PacketProtocol::Malformed));
    assert!(DebugTopic::Icmp.matches(PacketProtocol::Icmpv6));
    assert!(DebugTopic::IpPacket.matches(PacketProtocol::Dns));
    assert!(!DebugTopic::IpPacket.matches(PacketProtocol::Arp));
    assert!(!DebugTopic::Nat.matches(PacketProtocol::Ipv4));
    assert!(DebugTopic::SpanningTree.matches(PacketProtocol::Stp));
    assert!(!DebugTopic::Lacp.matches(PacketProtocol::Stp));
}

#[test]
fn a_canonical_name_normalizes_to_itself() {
    for input in ["gi0/01", " te 1/0/2 ", "po12", "gi0/1.0100", "LOOPBACK0", "vl10"] {
        let (name, kind) = canonical_interface(input).unwrap();
        assert_eq!(canonical_interface(&name), Ok((name.clone(), kind)));
    }
}
