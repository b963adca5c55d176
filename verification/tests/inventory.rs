use rios::{
    AdminState, ChannelMode, Device, DeviceError, DeviceId, DeviceType, DropReason, EtherType,
    EthernetFrame, InterfaceId, InterfaceKind, InterfaceMedia, Ipv4Addr, Ipv4InterfaceConfig,
    LinkState, MacAddress, SwitchportMode, VlanId,
};

fn vlan(n: u16) -> VlanId {
    VlanId::new(n).unwrap()
}

fn frame(ethertype: EtherType, payload: Vec<u8>) -> EthernetFrame {
    EthernetFrame {
        destination: MacAddress([2, 0, 0, 0, 0, 2]),
        source: MacAddress([2, 0, 0, 0, 0, 1]),
        ethertype,
        payload,
    }
}

fn up(d: &mut Device, id: InterfaceId) {
    d.set_admin_state(id, AdminState::Up).unwrap();
    d.set_link_state(id, LinkState::Up).unwrap();
}

#[test]
fn carrier_admin_and_logical_interfaces() {
    let mut d = Device::standalone();
    let id = InterfaceId(1);
    d.set_admin_state(id, AdminState::Up).unwrap();
    assert!(!d.protocol_up(id));
    d.set_link_state(id, LinkState::Up).unwrap();
    assert!(d.protocol_up(id));
    d.set_admin_state(id, AdminState::Down).unwrap();
    assert!(!d.protocol_up(id));
    for (name, up) in [("lo0", true), ("vlan10", false)] {
        let id = d.ensure_interface(name).unwrap();
        d.set_admin_state(id, AdminState::Up).unwrap();
        assert_eq!(d.protocol_up(id), up);
    }
    assert_eq!(d.ensure_interface("Gi0/01").unwrap(), InterfaceId(2));
    for bad in [
        "gi9/9",
        "loopback1/1",
        "vlan0",
        "vlan4095",
        "gi-1/0",
        "gi0/+1",
    ] {
        assert!(d.ensure_interface(bad).is_err(), "{bad}");
    }
}

#[test]
fn independent_snapshots_and_validated_mutations() {
    let mut d = Device::standalone();
    assert!(d.startup_config().is_none());
    d.save_config();
    let saved = d.startup_config().cloned();
    d.set_hostname("EDGE").unwrap();
    assert_eq!(d.startup_config().cloned(), saved);
    assert_eq!(d.hostname(), "EDGE");
    assert_eq!(saved.as_ref().map(|c| c.hostname.as_str()), Some("R1"));
    assert_eq!(d.running_config().hostname, "EDGE");
    let before = d.clone();
    assert!(d.set_hostname("bad\nname").is_err());
    assert!(d.set_description(InterfaceId(1), "bad\nend").is_err());
    assert!(d.set_description(InterfaceId(99), "test").is_err());
    assert_eq!(d, before);
}

#[test]
fn deterministic_distinct_macs_and_device_classes() {
    let first = Device::standalone();
    assert_eq!(first, Device::standalone());
    let mut second = Device::new(DeviceId(2), "SW1", DeviceType::Switch).unwrap();
    let id = second.add_physical_interface("gi0/0").unwrap();
    assert_ne!(
        first.interface(id).unwrap().0.mac_address,
        second.interface(id).unwrap().0.mac_address
    );
    assert_eq!(second.device_type(), DeviceType::Switch);
    assert!(Device::new(DeviceId(1 << 24), "R", DeviceType::Router).is_err());
}

#[test]
fn standalone_router_has_two_gigabit_ports() {
    let d = Device::standalone();
    assert_eq!(d.id(), DeviceId(1));
    assert_eq!(d.hostname(), "R1");
    assert_eq!(d.device_type(), DeviceType::Router);
    assert_eq!(d.interface_count(), 2);
    let (iface, config) = d.interface(InterfaceId(1)).unwrap();
    assert_eq!(config.name, "GigabitEthernet0/0");
    assert_eq!(iface.kind, InterfaceKind::GigabitEthernet);
    assert_eq!(iface.media, InterfaceMedia::Rj45);
    assert_eq!(iface.mac_address, MacAddress([2, 0, 0, 1, 0, 1]));
    assert_eq!(iface.link_state, LinkState::Down);
    assert_eq!(config.admin_state, AdminState::Down);
    assert_eq!(config.mtu, 1500);
    assert!(config.switchport.is_none());
    assert_eq!(d.interface(InterfaceId(2)).unwrap().1.name, "GigabitEthernet0/1");
    assert!(d.interface(InterfaceId(3)).is_none());
    assert!(d.interface(InterfaceId(0)).is_none());
    assert!(d.vlans().is_empty());
    assert!(d.supports_routing());
    assert!(!d.supports_switching());
    assert!(d.ipv4_forwarding_enabled());
}

#[test]
fn hardware_addresses_follow_device_and_port() {
    let mut d = Device::new(DeviceId(0x01_02_03), "R9", DeviceType::Router).unwrap();
    for k in 0..3u16 {
        d.add_physical_interface(&format!("gi0/{k}")).unwrap();
    }
    assert_eq!(
        d.interface(InterfaceId(3)).unwrap().0.mac_address,
        MacAddress([2, 1, 2, 3, 0, 3])
    );
    assert_ne!(
        d.interface(InterfaceId(1)).unwrap().0.mac_address,
        d.interface(InterfaceId(2)).unwrap().0.mac_address
    );
}

#[test]
fn new_device_validates_hostname_and_identifier() {
    assert_eq!(
        Device::new(DeviceId(5), "bad name", DeviceType::Router),
        Err(DeviceError::InvalidHostname)
    );
    assert_eq!(
        Device::new(DeviceId(0x100_0000), "R", DeviceType::Router),
        Err(DeviceError::InvalidDeviceId)
    );
    assert!(Device::new(DeviceId(0xff_ffff), "R", DeviceType::Router).is_ok());
    let sw = Device::new(DeviceId(3), "SW", DeviceType::Switch).unwrap();
    assert_eq!(sw.vlans(), &vec![(vlan(1), String::new())]);
    assert!(sw.supports_switching());
    assert!(!sw.ipv4_forwarding_enabled());
}

#[test]
fn ip_routing_only_on_routing_devices() {
    let mut sw = Device::new(DeviceId(3), "SW", DeviceType::Switch).unwrap();
    assert_eq!(sw.set_ip_routing(true), Err(DeviceError::NotRoutedPort));
    let mut l3 = Device::new(DeviceId(4), "L3", DeviceType::Layer3Switch).unwrap();
    assert!(!l3.ipv4_forwarding_enabled());
    l3.set_ip_routing(true).unwrap();
    assert!(l3.ipv4_forwarding_enabled());
}

#[test]
fn adding_hardware_checks_names_and_media() {
    let mut d = Device::new(DeviceId(7), "R7", DeviceType::Router).unwrap();
    let id = d.add_physical_interface("te0/1").unwrap();
    assert_eq!(d.interface(id).unwrap().0.media, InterfaceMedia::SfpPlus);
    assert_eq!(d.add_physical_interface("TenGigabitEthernet0/1").unwrap(), id);
    assert_eq!(d.interface_count(), 1);
    assert!(matches!(
        d.add_physical_interface("lo0"),
        Err(DeviceError::InvalidInterface(_))
    ));
    assert!(matches!(
        d.add_port("gi0/0", InterfaceMedia::SfpPlus),
        Err(DeviceError::InvalidInterface(_))
    ));
    let sfp = d.add_port("gi0/0", InterfaceMedia::Sfp).unwrap();
    assert_eq!(d.interface(sfp).unwrap().0.media, InterfaceMedia::Sfp);
    assert_eq!(d.find_interface("gigabitethernet0/0"), Some(sfp));
    assert_eq!(d.find_interface("GigabitEthernet0/9"), None);
}

#[test]
fn descriptions_are_trimmed_and_bounded() {
    let mut d = Device::standalone();
    d.set_description(InterfaceId(1), "  uplink to core  ").unwrap();
    assert_eq!(d.interface(InterfaceId(1)).unwrap().1.description, "uplink to core");
    assert_eq!(
        d.set_description(InterfaceId(1), &"x".repeat(241)),
        Err(DeviceError::InvalidDescription)
    );
    d.set_description(InterfaceId(1), &"x".repeat(240)).unwrap();
    d.clear_description(InterfaceId(1)).unwrap();
    assert_eq!(d.interface(InterfaceId(1)).unwrap().1.description, "");
    assert_eq!(
        d.clear_description(InterfaceId(3)),
        Err(DeviceError::MissingInterface)
    );
}

#[test]
fn vlan_database_edits() {
    let mut r = Device::standalone();
    assert_eq!(r.create_vlan(vlan(10)), Err(DeviceError::NotSwitchport));
    let mut sw = Device::new(DeviceId(3), "SW", DeviceType::Switch).unwrap();
    sw.create_vlan(vlan(10)).unwrap();
    sw.create_vlan(vlan(10)).unwrap();
    assert_eq!(sw.vlans().len(), 2);
    sw.set_vlan_name(vlan(10), "USERS").unwrap();
    assert_eq!(sw.vlans()[1], (vlan(10), "USERS".to_string()));
    assert_eq!(
        sw.set_vlan_name(vlan(10), "two words"),
        Err(DeviceError::InvalidVlanName)
    );
    assert_eq!(sw.set_vlan_name(vlan(10), ""), Err(DeviceError::InvalidVlanName));
    assert_eq!(
        sw.set_vlan_name(vlan(20), "NONE"),
        Err(DeviceError::NotSwitchport)
    );
    assert_eq!(sw.remove_vlan(vlan(1)), Err(DeviceError::DefaultVlan));
    sw.remove_vlan(vlan(10)).unwrap();
    sw.remove_vlan(vlan(30)).unwrap();
    assert_eq!(sw.vlans(), &vec![(vlan(1), String::new())]);
}

#[test]
fn switchports_classify_and_tag_frames() {
    let mut sw = Device::new(DeviceId(3), "SW", DeviceType::Switch).unwrap();
    let port = sw.add_physical_interface("gi0/1").unwrap();
    assert!(sw.is_switchport(port));
    let config = sw.interface(port).unwrap().1;
    assert_eq!(config.admin_state, AdminState::Up);
    let sp = config.switchport.clone().unwrap();
    assert_eq!(sp.mode, SwitchportMode::Access);
    assert_eq!(sp.access_vlan, vlan(1));

    let plain = frame(EtherType::Ipv4, vec![0x45, 0, 0, 20]);
    let (v, inner) = sw.classify_switch_ingress(port, &plain).unwrap();
    assert_eq!(v, vlan(1));
    assert_eq!(inner, plain);
    let tagged = plain.clone().tagged(vlan(10));
    assert!(sw.classify_switch_ingress(port, &tagged).is_none());

    sw.set_switchport_mode(port, SwitchportMode::Trunk).unwrap();
    assert!(sw.classify_switch_ingress(port, &tagged).is_none());
    sw.create_vlan(vlan(10)).unwrap();
    let (v, inner) = sw.classify_switch_ingress(port, &tagged).unwrap();
    assert_eq!(v, vlan(10));
    assert_eq!(inner, plain);
    let (v, _) = sw.classify_switch_ingress(port, &plain).unwrap();
    assert_eq!(v, vlan(1));

    sw.set_trunk_allowed_vlans(port, vec![vlan(20)]).unwrap();
    assert!(sw.classify_switch_ingress(port, &tagged).is_none());
    assert!(sw.prepare_switch_egress(port, vlan(10), plain.clone()).is_none());
    sw.set_trunk_allowed_vlans(port, vec![vlan(10), vlan(20)]).unwrap();
    assert_eq!(
        sw.prepare_switch_egress(port, vlan(10), plain.clone()),
        Some(tagged.clone())
    );
    sw.set_native_vlan(port, vlan(10)).unwrap();
    assert_eq!(
        sw.prepare_switch_egress(port, vlan(10), plain.clone()),
        Some(plain.clone())
    );

    sw.set_switchport_mode(port, SwitchportMode::Access).unwrap();
    sw.set_access_vlan(port, vlan(20)).unwrap();
    assert!(sw.prepare_switch_egress(port, vlan(10), plain.clone()).is_none());
    assert_eq!(
        sw.prepare_switch_egress(port, vlan(20), plain.clone()),
        Some(plain.clone())
    );
}

#[test]
fn routed_and_switched_ports_exclude_each_other() {
    let mut l3 = Device::new(DeviceId(4), "L3", DeviceType::Layer3Switch).unwrap();
    let port = l3.add_physical_interface("gi0/1").unwrap();
    let address = Ipv4InterfaceConfig::new(Ipv4Addr::new(10, 0, 0, 1), 24).unwrap();
    assert_eq!(l3.set_ipv4(port, address), Err(DeviceError::NotRoutedPort));
    l3.disable_switchport(port).unwrap();
    assert!(!l3.is_switchport(port));
    l3.set_ipv4(port, address).unwrap();
    assert_eq!(l3.interface(port).unwrap().1.ipv4, Some(address));
    l3.enable_switchport(port).unwrap();
    assert_eq!(l3.interface(port).unwrap().1.ipv4, None);
    assert!(l3.is_switchport(port));

    let mut r = Device::standalone();
    assert_eq!(r.enable_switchport(InterfaceId(1)), Err(DeviceError::NotSwitchport));
    assert_eq!(r.disable_switchport(InterfaceId(1)), Err(DeviceError::NotRoutedPort));
    r.set_ipv4(InterfaceId(1), address).unwrap();
    r.clear_ipv4(InterfaceId(1)).unwrap();
    assert_eq!(r.interface(InterfaceId(1)).unwrap().1.ipv4, None);
    let serial = r.add_physical_interface("se0/0").unwrap();
    assert_eq!(
        r.set_ipv4(serial, address),
        Err(DeviceError::UnsupportedIpv4Interface)
    );
    assert_eq!(
        r.set_switchport_mode(InterfaceId(1), SwitchportMode::Trunk),
        Err(DeviceError::NotSwitchport)
    );
}

#[test]
fn port_channels_bundle_ports_and_select_members() {
    let mut r = Device::standalone();
    let a = InterfaceId(1);
    let b = InterfaceId(2);
    r.set_channel_group(a, 1, ChannelMode::On).unwrap();
    let pc = r.find_interface("Port-channel1").unwrap();
    assert_eq!(pc, InterfaceId(3));
    assert!(r.is_port_channel(pc));
    assert!(!r.is_port_channel(a));
    assert_eq!(r.channel_interface(a), Some(pc));
    assert_eq!(r.channel_interface(b), None);
    assert_eq!(
        r.set_channel_group(b, 1, ChannelMode::Active),
        Err(DeviceError::InvalidChannel)
    );
    r.set_channel_group(b, 1, ChannelMode::On).unwrap();
    assert!(r.channel_members(pc).is_empty());
    assert!(!r.protocol_up(pc));
    assert_eq!(r.channel_ingress(a), Err(DropReason::ChannelInactive));

    up(&mut r, a);
    assert_eq!(r.channel_members(pc), vec![a]);
    assert!(r.protocol_up(pc));
    assert_eq!(r.channel_ingress(a), Ok(pc));
    assert_eq!(r.channel_ingress(b), Err(DropReason::ChannelInactive));
    let f = frame(EtherType::Ipv4, vec![1, 2, 3]);
    assert_eq!(r.channel_egress(pc, &f), Some(a));
    up(&mut r, b);
    assert_eq!(r.channel_members(pc), vec![a, b]);
    let picked = r.channel_egress(pc, &f).unwrap();
    assert!(picked == a || picked == b);
    assert_eq!(r.channel_egress(pc, &f), Some(picked));

    let address = Ipv4InterfaceConfig::new(Ipv4Addr::new(10, 0, 0, 1), 24).unwrap();
    assert_eq!(r.set_ipv4(a, address), Err(DeviceError::InvalidChannel));
    r.clear_channel_group(a).unwrap();
    assert_eq!(r.channel_interface(a), None);
    assert_eq!(r.channel_members(pc), vec![b]);
    assert_eq!(r.channel_ingress(a), Ok(a));
    assert_eq!(
        r.set_channel_group(a, 0, ChannelMode::On),
        Err(DeviceError::InvalidChannel)
    );
    assert_eq!(
        r.set_channel_group(pc, 1, ChannelMode::On),
        Err(DeviceError::InvalidChannel)
    );
}

#[test]
fn a_bundle_holds_at_most_eight_ports() {
    let mut r = Device::new(DeviceId(8), "R8", DeviceType::Router).unwrap();
    for k in 0..9u16 {
        r.add_physical_interface(&format!("gi0/{k}")).unwrap();
    }
    for k in 1..=8u64 {
        r.set_channel_group(InterfaceId(k), 2, ChannelMode::On).unwrap();
    }
    assert_eq!(
        r.set_channel_group(InterfaceId(9), 2, ChannelMode::On),
        Err(DeviceError::InvalidChannel)
    );
    r.set_channel_group(InterfaceId(8), 2, ChannelMode::On).unwrap();
}

#[test]
fn subinterfaces_carry_their_encapsulation() {
    let mut r = Device::standalone();
    let sub = r.ensure_interface("gi0/0.10").unwrap();
    assert_eq!(sub, InterfaceId(3));
    let (iface, config) = r.interface(sub).unwrap();
    assert_eq!(iface.kind, InterfaceKind::EthernetSubinterface);
    assert_eq!(config.name, "GigabitEthernet0/0.10");
    assert_eq!(config.parent, Some(InterfaceId(1)));
    assert_eq!(
        iface.mac_address,
        r.interface(InterfaceId(1)).unwrap().0.mac_address
    );
    assert!(!r.protocol_up(sub));
    r.set_dot1q(sub, vlan(10), false).unwrap();
    up(&mut r, InterfaceId(1));
    assert!(r.protocol_up(sub));

    let sibling = r.ensure_interface("gi0/0.20").unwrap();
    assert_eq!(
        r.set_dot1q(sibling, vlan(10), false),
        Err(DeviceError::DuplicateEncapsulation)
    );
    r.set_dot1q(sibling, vlan(20), true).unwrap();
    assert_eq!(
        r.set_dot1q(InterfaceId(1), vlan(30), false),
        Err(DeviceError::NotSubinterface)
    );

    let plain = frame(EtherType::Ipv4, vec![0x45, 0, 0, 20]);
    let tagged = plain.clone().tagged(vlan(10));
    assert_eq!(
        r.routed_ingress(InterfaceId(1), &tagged),
        Some((sub, plain.clone()))
    );
    assert_eq!(
        r.routed_ingress(InterfaceId(1), &plain),
        Some((sibling, plain.clone()))
    );
    assert_eq!(
        r.subinterface_egress(sub, plain.clone()),
        Some((InterfaceId(1), tagged.clone()))
    );
    assert_eq!(
        r.subinterface_egress(sibling, plain.clone()),
        Some((InterfaceId(1), plain.clone()))
    );
    assert!(r.subinterface_egress(InterfaceId(1), plain.clone()).is_none());
    assert!(matches!(
        r.ensure_interface("gi0/5.1"),
        Err(DeviceError::InvalidInterface(_))
    ));
}

#[test]
fn entering_an_interface_twice_changes_nothing() {
    let mut r = Device::standalone();
    let lo = r.ensure_interface("lo0").unwrap();
    let after = r.clone();
    assert_eq!(r.ensure_interface("Loopback0").unwrap(), lo);
    assert_eq!(r, after);
    assert_eq!(r.interface(lo).unwrap().1.admin_state, AdminState::Down);
}

#[test]
fn interface_ranges_follow_sequence_numbers() {
    let mut r = Device::standalone();
    r.add_physical_interface("gi0/2").unwrap();
    r.add_physical_interface("gi0/3").unwrap();
    r.add_physical_interface("te0/0").unwrap();
    assert_eq!(
        r.interface_range(InterfaceId(2), InterfaceId(4)),
        Ok(vec![InterfaceId(2), InterfaceId(3), InterfaceId(4)])
    );
    assert_eq!(
        r.interface_range(InterfaceId(1), InterfaceId(1)),
        Ok(vec![InterfaceId(1)])
    );
    assert_eq!(
        r.interface_range(InterfaceId(4), InterfaceId(1)),
        Err(DeviceError::InvalidInterface(
            "GigabitEthernet0/3-GigabitEthernet0/0".to_string()
        ))
    );
    assert!(r.interface_range(InterfaceId(1), InterfaceId(5)).is_err());
    assert_eq!(
        r.interface_range(InterfaceId(1), InterfaceId(9)),
        Err(DeviceError::MissingInterface)
    );
}

#[test]
fn vlan_interfaces_follow_their_vlan() {
    let mut l3 = Device::new(DeviceId(4), "L3", DeviceType::Layer3Switch).unwrap();
    let port = l3.add_physical_interface("gi0/1").unwrap();
    let svi = l3.ensure_interface("vlan10").unwrap();
    assert_eq!(l3.svi_vlan(svi), Some(vlan(10)));
    assert_eq!(l3.svi_vlan(port), None);
    l3.set_admin_state(svi, AdminState::Up).unwrap();
    l3.refresh_svi_states();
    assert!(!l3.protocol_up(svi));
    assert_eq!(l3.active_svi(vlan(10)), None);

    l3.create_vlan(vlan(10)).unwrap();
    l3.set_access_vlan(port, vlan(10)).unwrap();
    l3.set_link_state(port, LinkState::Up).unwrap();
    l3.refresh_svi_states();
    assert!(l3.protocol_up(svi));
    assert_eq!(l3.active_svi(vlan(10)), Some(svi));

    l3.set_link_state(port, LinkState::Down).unwrap();
    l3.refresh_svi_states();
    assert!(!l3.protocol_up(svi));
}

#[test]
fn an_invalid_subinterface_parent_is_reported_by_itself() {
    match rios::canonical_interface("xx0/1.5") {
        Err(rios::DeviceError::InvalidInterface(text)) => assert_eq!(text, "xx0/1"),
        other => panic!("unexpected {other:?}"),
    }
    match rios::canonical_interface("gi0/0.0") {
        Err(rios::DeviceError::InvalidInterface(text)) => assert_eq!(text, "gi0/0.0"),
        other => panic!("unexpected {other:?}"),
    }
}

#[test]
fn saved_configuration_keeps_interfaces_and_vlans() {
    let mut d = Device::new(DeviceId(4), "SW", DeviceType::Switch).unwrap();
    d.add_physical_interface("gi0/1").unwrap();
    d.save_config();
    let saved = d.startup_config().unwrap();
    assert_eq!(saved.interfaces.len(), 1);
    assert_eq!(saved.interfaces[0].name, "GigabitEthernet0/1");
    assert_eq!(saved.vlans.len(), 1);
}
