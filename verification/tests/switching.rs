use rios::{
    AdminState, Device, DeviceError, DeviceId, DeviceType, DropReason, EtherType, EthernetFrame,
    InterfaceId, LinkState, MacAddress, MacEntry, MacTable, VlanId,
};

const LIFETIME: u64 = 300_000_000;

fn vlan(n: u16) -> VlanId {
    VlanId::new(n).unwrap()
}

fn host(n: u8) -> MacAddress {
    MacAddress([2, 0, 0, 0, 0, n])
}

fn switch_with_ports(count: u16) -> Device {
    let mut sw = Device::new(DeviceId(3), "SW", DeviceType::Switch).unwrap();
    for k in 0..count {
        sw.add_physical_interface(&format!("gi0/{k}")).unwrap();
    }
    sw
}

#[test]
fn learned_addresses_age_out_after_five_minutes() {
    let sw = switch_with_ports(2);
    let mut table = MacTable::new();
    sw.learn_mac(&mut table, vlan(1), host(1), InterfaceId(1), 1_000).unwrap();
    let entry = MacEntry {
        vlan: vlan(1),
        address: host(1),
        interface: InterfaceId(1),
        learned_at: 1_000,
    };
    assert_eq!(table.mac_lookup(vlan(1), host(1), 1_000), Some(entry));
    assert_eq!(table.mac_lookup(vlan(1), host(1), 1_000 + LIFETIME - 1), Some(entry));
    assert_eq!(table.mac_lookup(vlan(2), host(1), 1_000), None);
    assert_eq!(table.mac_lookup(vlan(1), host(1), 1_000 + LIFETIME), None);
    assert!(table.mac_entries(0).is_empty());
}

#[test]
fn a_moved_address_follows_its_new_port() {
    let sw = switch_with_ports(2);
    let mut table = MacTable::new();
    sw.learn_mac(&mut table, vlan(1), host(1), InterfaceId(1), 10).unwrap();
    sw.learn_mac(&mut table, vlan(1), host(2), InterfaceId(1), 10).unwrap();
    sw.learn_mac(&mut table, vlan(1), host(1), InterfaceId(2), 20).unwrap();
    let entries = table.mac_entries(30);
    assert_eq!(entries.len(), 2);
    assert_eq!(entries[0].interface, InterfaceId(2));
    assert_eq!(entries[0].learned_at, 20);
    assert_eq!(entries[1].address, host(2));
}

#[test]
fn group_and_zero_sources_are_not_learned() {
    let sw = switch_with_ports(1);
    let mut table = MacTable::new();
    sw.learn_mac(&mut table, vlan(1), MacAddress::broadcast(), InterfaceId(1), 0)
        .unwrap();
    sw.learn_mac(&mut table, vlan(1), MacAddress([1, 0, 0x5e, 0, 0, 1]), InterfaceId(1), 0)
        .unwrap();
    sw.learn_mac(&mut table, vlan(1), MacAddress([0; 6]), InterfaceId(1), 0)
        .unwrap();
    assert!(table.mac_entries(0).is_empty());
}

#[test]
fn learning_needs_a_switch_and_an_existing_port() {
    let sw = switch_with_ports(1);
    let mut table = MacTable::new();
    assert_eq!(
        sw.learn_mac(&mut table, vlan(1), host(1), InterfaceId(2), 0),
        Err(DeviceError::MissingInterface)
    );
    let router = Device::standalone();
    assert_eq!(
        router.learn_mac(&mut table, vlan(1), host(1), InterfaceId(1), 0),
        Err(DeviceError::MissingInterface)
    );
    assert!(table.mac_entries(0).is_empty());
}

#[test]
fn forgetting_a_port_or_vlan_drops_only_its_entries() {
    let sw = switch_with_ports(2);
    let mut table = MacTable::new();
    sw.learn_mac(&mut table, vlan(1), host(1), InterfaceId(1), 0).unwrap();
    sw.learn_mac(&mut table, vlan(1), host(2), InterfaceId(2), 0).unwrap();
    sw.learn_mac(&mut table, vlan(10), host(3), InterfaceId(2), 0).unwrap();
    table.forget_interface(InterfaceId(1));
    assert_eq!(table.mac_lookup(vlan(1), host(1), 0), None);
    assert!(table.mac_lookup(vlan(1), host(2), 0).is_some());
    table.forget_vlan(vlan(10));
    assert_eq!(table.mac_lookup(vlan(10), host(3), 0), None);
    assert_eq!(table.mac_entries(0).len(), 1);
}

fn frame(destination: MacAddress, ethertype: EtherType, length: usize) -> EthernetFrame {
    EthernetFrame {
        destination,
        source: host(9),
        ethertype,
        payload: vec![0; length],
    }
}

#[test]
fn boundary_checks_name_the_reason_for_a_drop() {
    let mut r = Device::standalone();
    let port = InterfaceId(1);
    let own = r.interface(port).unwrap().0.mac_address;
    let ok = frame(own, EtherType::Ipv4, 100);
    assert_eq!(r.check_frame(InterfaceId(9), &ok, true), Err(DropReason::NotEthernet));
    let lo = r.ensure_interface("lo0").unwrap();
    assert_eq!(r.check_frame(lo, &ok, true), Err(DropReason::NotEthernet));
    assert_eq!(r.check_frame(port, &ok, true), Err(DropReason::InterfaceDown));
    r.set_admin_state(port, AdminState::Up).unwrap();
    r.set_link_state(port, LinkState::Up).unwrap();
    assert_eq!(r.check_frame(port, &ok, true), Ok(()));
    assert_eq!(
        r.check_frame(port, &frame(own, EtherType::Ipv4, 1501), true),
        Err(DropReason::MtuExceeded)
    );
    assert_eq!(
        r.check_frame(port, &frame(own, EtherType::Dot1Q, 1504), true),
        Ok(())
    );
    assert_eq!(
        r.check_frame(port, &frame(own, EtherType::Length(100), 100), true),
        Err(DropReason::InvalidEtherType)
    );
    assert_eq!(
        r.check_frame(port, &frame(host(7), EtherType::Ipv4, 100), true),
        Err(DropReason::NotForInterface)
    );
    assert_eq!(
        r.check_frame(port, &frame(host(7), EtherType::Ipv4, 100), false),
        Ok(())
    );
    assert_eq!(
        r.check_frame(port, &frame(MacAddress::broadcast(), EtherType::Arp, 28), true),
        Ok(())
    );
    let mut sw = switch_with_ports(1);
    sw.set_link_state(InterfaceId(1), LinkState::Up).unwrap();
    assert_eq!(
        sw.check_frame(InterfaceId(1), &frame(host(7), EtherType::Ipv4, 100), true),
        Ok(())
    );
}

#[test]
fn counters_count_accepted_and_dropped_frames() {
    let mut r = Device::standalone();
    let port = InterfaceId(1);
    let zero = r.interface_counters(port).unwrap();
    assert_eq!((zero.rx_packets, zero.tx_packets, zero.drops), (0, 0, 0));
    r.record_frame(port, 64, true).unwrap();
    r.record_frame(port, 100, true).unwrap();
    r.record_frame(port, 1500, false).unwrap();
    r.record_drop(port).unwrap();
    let c = r.interface_counters(port).unwrap();
    assert_eq!((c.rx_packets, c.rx_bytes), (2, 164));
    assert_eq!((c.tx_packets, c.tx_bytes), (1, 1500));
    assert_eq!(c.drops, 1);
    assert_eq!(r.interface_counters(InterfaceId(2)).unwrap().rx_packets, 0);
    assert_eq!(r.record_frame(InterfaceId(9), 1, true), Err(DeviceError::MissingInterface));
    assert_eq!(r.record_drop(InterfaceId(9)), Err(DeviceError::MissingInterface));
    assert!(r.interface_counters(InterfaceId(9)).is_none());
}

#[test]
fn counters_stop_at_their_largest_value() {
    let mut r = Device::standalone();
    r.record_frame(InterfaceId(1), usize::MAX, false).unwrap();
    r.record_frame(InterfaceId(1), usize::MAX, false).unwrap();
    let c = r.interface_counters(InterfaceId(1)).unwrap();
    assert_eq!(c.tx_packets, 2);
    assert_eq!(c.tx_bytes, u64::MAX);
}
