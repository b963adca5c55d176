use rios::{
    ArpCache, DebugTopic, Device, DeviceId, DeviceType, InterfaceId, Ipv4Addr, MacAddress, MacTable,
    Observability, PacketProtocol, VlanId,
};

fn switch() -> Device {
    let mut sw = Device::new(DeviceId(3), "SW", DeviceType::Switch).unwrap();
    sw.add_physical_interface("gi0/1").unwrap();
    sw.add_physical_interface("gi0/2").unwrap();
    sw
}

#[test]
fn debugging_report_lists_enabled_topics_in_order() {
    let mut o = Observability::new();
    assert_eq!(o.show_debugging(), "All debugging is disabled.\n");
    o.set_debug(DebugTopic::Bgp, true);
    o.set_debug(DebugTopic::Arp, true);
    assert_eq!(o.show_debugging(), "Arp debugging is enabled.\nBgp debugging is enabled.\n");
}

#[test]
fn counters_report_right_aligns_numbers() {
    let mut o = Observability::new();
    o.record_protocol(PacketProtocol::Tcp, Some(true), 60);
    o.record_protocol(PacketProtocol::Arp, Some(false), 42);
    let expected = String::from(
        "Protocol       RX packets   TX packets        Drops     RX bytes     TX bytes\n",
    ) + "Arp:            1            0            0           42            0\n"
        + "Tcp:            0            1            0            0           60\n";
    assert_eq!(o.show_protocol_counters(), expected);
}

#[test]
fn mac_report_names_ports_and_drops_stale_entries() {
    let sw = switch();
    let mut table = MacTable::new();
    let vlan = VlanId::new(10).unwrap();
    sw.learn_mac(&mut table, vlan, MacAddress([2, 0, 0, 0, 0, 1]), InterfaceId(2), 0).unwrap();
    sw.learn_mac(&mut table, vlan, MacAddress([2, 0, 0, 0, 0, 2]), InterfaceId(1), 200_000_000).unwrap();
    let report = sw.show_mac_address_table(&mut table, 350_000_000);
    let heading = "          Mac Address Table\n-------------------------------------------\n\nVlan    Mac Address       Type        Ports\n----    -----------       --------    -----\n";
    assert_eq!(report, format!("{heading}10      02:00:00:00:00:02 DYNAMIC     GigabitEthernet0/1\n"));
    assert_eq!(table.mac_entries(350_000_000).len(), 1);
}

#[test]
fn arp_report_shows_age_in_minutes() {
    let sw = switch();
    let mut arp = ArpCache::new();
    let mac = MacAddress([2, 0, 0, 0, 0, 9]);
    arp.learn_arp(Ipv4Addr::new(10, 0, 0, 2), mac, InterfaceId(1), true, 0).unwrap();
    let report = sw.show_arp(&mut arp, 125_000_000);
    assert_eq!(
        report,
        "Protocol  Address          Age  Hardware Addr     Interface\nInternet  10.0.0.2           2  02:00:00:00:00:09 GigabitEthernet0/1\n"
    );
}
