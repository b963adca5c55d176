use rios::{
    AccessListAction, AccessListDirection, AccessListId, AclEntry, AclKind, AclProtocol, AclTable,
    AddressMatch, DeviceError, InterfaceId, IpProtocol, Ipv4Addr, Ipv4Packet, PortMatch,
    StandardAccessListEntry,
};

fn ip(a: u8, b: u8, c: u8, d: u8) -> Ipv4Addr {
    Ipv4Addr::new(a, b, c, d)
}

fn packet(source: Ipv4Addr, destination: Ipv4Addr, protocol: u8, payload: Vec<u8>) -> Ipv4Packet {
    Ipv4Packet { source, destination, ttl: 64, protocol: IpProtocol::from(protocol), payload }
}

fn standard(action: AccessListAction, source: Ipv4Addr, wildcard: Ipv4Addr) -> StandardAccessListEntry {
    StandardAccessListEntry { action, source, wildcard }
}

fn ip_rule(action: AccessListAction, source: Ipv4Addr, wildcard: Ipv4Addr) -> AclEntry {
    AclEntry::Rule {
        action,
        protocol: AclProtocol::Ip,
        source: AddressMatch { address: source, wildcard },
        source_port: PortMatch::Any,
        destination: AddressMatch::any(),
        destination_port: PortMatch::Any,
        log: false,
    }
}

#[test]
fn ordered_extended_rules_enforce_ports_count_matches_and_remove_sequences() {
    let mut acls = AclTable::new();
    let list = acls.ensure_acl("WEB-IN", AclKind::Extended, &routing_device()).unwrap();
    acls.set_acl_entry(list, Some(5), AclEntry::Remark("Web service".to_string())).unwrap();
    let rule = AclEntry::Rule {
        action: AccessListAction::Permit,
        protocol: AclProtocol::Tcp,
        source: AddressMatch::any(),
        source_port: PortMatch::Range(1000, 2000),
        destination: AddressMatch { address: ip(192, 0, 2, 10), wildcard: Ipv4Addr::new(0, 0, 0, 0) },
        destination_port: PortMatch::Eq(443),
        log: true,
    };
    acls.set_acl_entry(list, Some(10), rule).unwrap();
    acls.set_named_access_group(InterfaceId(1), true, "WEB-IN", AccessListDirection::In).unwrap();
    let mut p = packet(ip(10, 0, 0, 1), ip(192, 0, 2, 10), 6, vec![0x05, 0xdc, 1, 0xbb]);
    assert!(acls.permits_ipv4(InterfaceId(1), true, AccessListDirection::In, &p));
    assert_eq!(acls.acl_match_count(list, 10), 1);
    p.payload[3] = 80;
    assert!(!acls.permits_ipv4(InterfaceId(1), true, AccessListDirection::In, &p));
    p.payload.truncate(2);
    assert!(!acls.permits_ipv4(InterfaceId(1), true, AccessListDirection::In, &p));
    acls.remove_acl_entry(list, 10).unwrap();
    assert_eq!(acls.acl_match_count(list, 10), 0);
    assert!(!acls.permits_ipv4(InterfaceId(1), true, AccessListDirection::In, &p));
}

#[test]
fn standard_list_first_match_wins_and_ends_with_implicit_deny() {
    let mut acls = AclTable::new();
    let id = AccessListId::new(1).unwrap();
    acls.add_access_list_entry(id, standard(AccessListAction::Deny, ip(10, 0, 0, 5), ip(0, 0, 0, 0)), &routing_device())
        .unwrap();
    acls.add_access_list_entry(id, standard(AccessListAction::Permit, ip(10, 0, 0, 0), ip(0, 0, 0, 255)), &routing_device())
        .unwrap();
    assert!(!acls.access_list_permits(id, ip(10, 0, 0, 5)));
    assert!(acls.access_list_permits(id, ip(10, 0, 0, 6)));
    assert!(!acls.access_list_permits(id, ip(10, 0, 1, 6)));
    assert!(!acls.access_list_permits(AccessListId::new(2).unwrap(), ip(10, 0, 0, 6)));
    acls.set_access_group(InterfaceId(3), true, id, AccessListDirection::Out, &routing_device()).unwrap();
    let p = packet(ip(10, 0, 0, 6), ip(192, 0, 2, 1), 17, vec![]);
    assert!(acls.permits_ipv4(InterfaceId(3), true, AccessListDirection::Out, &p));
    assert!(acls.permits_ipv4(InterfaceId(3), true, AccessListDirection::In, &p));
    assert!(!acls.permits_ipv4(InterfaceId(3), false, AccessListDirection::Out, &p));
    let q = packet(ip(172, 16, 0, 1), ip(192, 0, 2, 1), 17, vec![]);
    assert!(!acls.permits_ipv4(InterfaceId(3), true, AccessListDirection::Out, &q));
}

#[test]
fn access_list_numbers_and_bindings_are_validated() {
    assert!(AccessListId::new(0).is_none());
    assert!(AccessListId::new(100).is_none());
    assert_eq!(AccessListId::new(99).unwrap().get(), 99);
    let mut acls = AclTable::new();
    let id = AccessListId::new(7).unwrap();
    let entry = standard(AccessListAction::Permit, ip(0, 0, 0, 0), ip(255, 255, 255, 255));
    assert_eq!(acls.add_access_list_entry(id, entry, &plain_switch()), Err(DeviceError::AccessListUnsupported));
    assert_eq!(
        acls.set_access_group(InterfaceId(1), true, id, AccessListDirection::In, &routing_device()),
        Err(DeviceError::MissingAccessList)
    );
    acls.add_access_list_entry(id, entry, &routing_device()).unwrap();
    assert_eq!(
        acls.set_access_group(InterfaceId(1), false, id, AccessListDirection::In, &routing_device()),
        Err(DeviceError::MissingInterface)
    );
    assert_eq!(
        acls.set_named_access_group(InterfaceId(1), true, "NOPE", AccessListDirection::In),
        Err(DeviceError::MissingAccessList)
    );
}

#[test]
fn standard_list_holds_at_most_4096_rules() {
    let mut acls = AclTable::new();
    let id = AccessListId::new(9).unwrap();
    let entry = standard(AccessListAction::Deny, ip(10, 0, 0, 1), ip(0, 0, 0, 0));
    for _ in 0..4096 {
        acls.add_access_list_entry(id, entry, &routing_device()).unwrap();
    }
    assert_eq!(acls.add_access_list_entry(id, entry, &routing_device()), Err(DeviceError::AccessListCapacity));
}

#[test]
fn list_names_follow_ios_rules() {
    let mut acls = AclTable::new();
    assert_eq!(acls.ensure_acl("EDGE", AclKind::Standard, &plain_switch()), Err(DeviceError::AccessListUnsupported));
    assert_eq!(acls.ensure_acl("", AclKind::Standard, &routing_device()), Err(DeviceError::InvalidAccessList));
    assert_eq!(acls.ensure_acl("bad name", AclKind::Standard, &routing_device()), Err(DeviceError::InvalidAccessList));
    let long = "A".repeat(65);
    assert_eq!(acls.ensure_acl(&long, AclKind::Extended, &routing_device()), Err(DeviceError::InvalidAccessList));
    assert!(acls.ensure_acl(&"A".repeat(64), AclKind::Extended, &routing_device()).is_ok());
    assert_eq!(acls.ensure_acl("05", AclKind::Standard, &routing_device()), Err(DeviceError::InvalidAccessList));
    assert_eq!(acls.ensure_acl("100", AclKind::Standard, &routing_device()), Err(DeviceError::InvalidAccessList));
    assert_eq!(acls.ensure_acl("99999", AclKind::Extended, &routing_device()), Err(DeviceError::InvalidAccessList));
    let a = acls.ensure_acl("100", AclKind::Extended, &routing_device()).unwrap();
    let b = acls.ensure_acl("1300", AclKind::Standard, &routing_device()).unwrap();
    let c = acls.ensure_acl("my_list-2", AclKind::Extended, &routing_device()).unwrap();
    assert_eq!(acls.acl_id("1300"), Some(b));
    assert_eq!(acls.ensure_acl("100", AclKind::Extended, &routing_device()), Ok(a));
    assert_eq!(acls.ensure_acl("100", AclKind::Standard, &routing_device()), Err(DeviceError::InvalidAccessList));
    assert_eq!(a.0 + 1, b.0);
    assert_eq!(b.0 + 1, c.0);
    assert_eq!(acls.acl_id("missing"), None);
}

#[test]
fn numbered_list_is_taken_over_by_a_named_list_of_the_same_number() {
    let mut acls = AclTable::new();
    let id = AccessListId::new(5).unwrap();
    acls.add_access_list_entry(id, standard(AccessListAction::Deny, ip(10, 0, 0, 5), ip(0, 0, 0, 0)), &routing_device())
        .unwrap();
    acls.add_access_list_entry(id, standard(AccessListAction::Permit, ip(10, 0, 0, 0), ip(0, 0, 0, 255)), &routing_device())
        .unwrap();
    let before = (acls.access_list_permits(id, ip(10, 0, 0, 5)), acls.access_list_permits(id, ip(10, 0, 0, 9)));
    let named = acls.ensure_acl("5", AclKind::Standard, &routing_device()).unwrap();
    let list = acls.list(named).unwrap();
    let sequences: Vec<u32> = list.entries.iter().map(|e| e.0).collect();
    assert_eq!(sequences, vec![10, 20]);
    assert_eq!(
        (acls.access_list_permits(id, ip(10, 0, 0, 5)), acls.access_list_permits(id, ip(10, 0, 0, 9))),
        before
    );
    assert_eq!(before, (false, true));
    acls.add_access_list_entry(id, standard(AccessListAction::Permit, ip(10, 0, 0, 5), ip(0, 0, 0, 0)), &routing_device())
        .unwrap();
    let sequences: Vec<u32> = acls.list(named).unwrap().entries.iter().map(|e| e.0).collect();
    assert_eq!(sequences, vec![10, 20, 30]);
}

#[test]
fn entries_are_validated_and_sequenced() {
    let mut acls = AclTable::new();
    let std_list = acls.ensure_acl("EDGE", AclKind::Standard, &routing_device()).unwrap();
    let ext = acls.ensure_acl("CORE", AclKind::Extended, &routing_device()).unwrap();
    let any = ip_rule(AccessListAction::Permit, ip(0, 0, 0, 0), ip(255, 255, 255, 255));
    assert_eq!(acls.set_acl_entry(rios::AclId(9), None, any.clone()), Err(DeviceError::MissingAccessList));
    acls.set_acl_entry(ext, None, any.clone()).unwrap();
    acls.set_acl_entry(ext, None, any.clone()).unwrap();
    acls.set_acl_entry(ext, Some(15), AclEntry::Remark("between".to_string())).unwrap();
    let sequences: Vec<u32> = acls.list(ext).unwrap().entries.iter().map(|e| e.0).collect();
    assert_eq!(sequences, vec![10, 15, 20]);
    assert_eq!(acls.set_acl_entry(ext, Some(0), any.clone()), Err(DeviceError::InvalidAccessList));
    assert_eq!(acls.set_acl_entry(ext, Some(u32::MAX), any.clone()), Err(DeviceError::InvalidAccessList));
    acls.set_acl_entry(ext, Some(u32::MAX - 5), any.clone()).unwrap();
    assert_eq!(acls.set_acl_entry(ext, None, any.clone()), Err(DeviceError::InvalidAccessList));
    let control = AclEntry::Remark("tab\there".to_string());
    assert_eq!(acls.set_acl_entry(ext, Some(30), control), Err(DeviceError::InvalidAccessList));
    let long = AclEntry::Remark("x".repeat(241));
    assert_eq!(acls.set_acl_entry(ext, Some(30), long), Err(DeviceError::InvalidAccessList));
    acls.set_acl_entry(ext, Some(30), AclEntry::Remark("x".repeat(240))).unwrap();
    let reversed = AclEntry::Rule {
        action: AccessListAction::Deny,
        protocol: AclProtocol::Udp,
        source: AddressMatch::any(),
        source_port: PortMatch::Range(20, 10),
        destination: AddressMatch::any(),
        destination_port: PortMatch::Any,
        log: false,
    };
    assert_eq!(acls.set_acl_entry(ext, Some(40), reversed), Err(DeviceError::InvalidAccessList));
    let icmp_ports = AclEntry::Rule {
        action: AccessListAction::Deny,
        protocol: AclProtocol::Icmp,
        source: AddressMatch::any(),
        source_port: PortMatch::Any,
        destination: AddressMatch::any(),
        destination_port: PortMatch::Eq(7),
        log: false,
    };
    assert_eq!(acls.set_acl_entry(ext, Some(40), icmp_ports), Err(DeviceError::InvalidAccessList));
    let tcp = AclEntry::Rule {
        action: AccessListAction::Deny,
        protocol: AclProtocol::Tcp,
        source: AddressMatch::any(),
        source_port: PortMatch::Any,
        destination: AddressMatch::any(),
        destination_port: PortMatch::Any,
        log: false,
    };
    assert_eq!(acls.set_acl_entry(std_list, None, tcp.clone()), Err(DeviceError::InvalidAccessList));
    acls.set_acl_entry(ext, Some(40), tcp).unwrap();
    acls.set_acl_entry(std_list, None, any).unwrap();
    assert_eq!(acls.remove_acl_entry(rios::AclId(0), 10), Err(DeviceError::MissingAccessList));
}

#[test]
fn editing_a_rule_resets_its_counter() {
    let mut acls = AclTable::new();
    let list = acls.ensure_acl("COUNT", AclKind::Standard, &routing_device()).unwrap();
    acls.set_acl_entry(list, Some(10), ip_rule(AccessListAction::Deny, ip(10, 0, 0, 1), ip(0, 0, 0, 0)))
        .unwrap();
    let p = packet(ip(10, 0, 0, 1), ip(10, 0, 0, 2), 1, vec![]);
    assert!(!acls.evaluate_named_acl(list, &p));
    assert!(!acls.evaluate_named_acl(list, &p));
    assert_eq!(acls.acl_match_count(list, 10), 2);
    acls.set_acl_entry(list, Some(10), ip_rule(AccessListAction::Permit, ip(10, 0, 0, 1), ip(0, 0, 0, 0)))
        .unwrap();
    assert_eq!(acls.acl_match_count(list, 10), 0);
    assert!(acls.evaluate_named_acl(list, &p));
    assert_eq!(acls.acl_match_count(list, 10), 1);
    assert!(!acls.evaluate_named_acl(rios::AclId(77), &p));
}

#[test]
fn named_binding_replaces_numbered_binding_in_that_direction() {
    let mut acls = AclTable::new();
    let id = AccessListId::new(3).unwrap();
    acls.add_access_list_entry(id, standard(AccessListAction::Permit, ip(0, 0, 0, 0), ip(255, 255, 255, 255)), &routing_device())
        .unwrap();
    let deny_all = acls.ensure_acl("DENY", AclKind::Standard, &routing_device()).unwrap();
    acls.set_acl_entry(deny_all, None, ip_rule(AccessListAction::Deny, ip(0, 0, 0, 0), ip(255, 255, 255, 255)))
        .unwrap();
    let p = packet(ip(10, 0, 0, 1), ip(10, 0, 0, 2), 17, vec![0, 53, 0, 53]);
    acls.set_access_group(InterfaceId(2), true, id, AccessListDirection::In, &routing_device()).unwrap();
    assert!(acls.permits_ipv4(InterfaceId(2), true, AccessListDirection::In, &p));
    acls.set_named_access_group(InterfaceId(2), true, "DENY", AccessListDirection::In).unwrap();
    assert!(!acls.permits_ipv4(InterfaceId(2), true, AccessListDirection::In, &p));
    acls.set_access_group(InterfaceId(2), true, id, AccessListDirection::In, &routing_device()).unwrap();
    assert!(acls.permits_ipv4(InterfaceId(2), true, AccessListDirection::In, &p));
}

#[test]
fn host_and_any_wildcards_match_as_documented() {
    let host = AddressMatch { address: ip(192, 0, 2, 7), wildcard: ip(0, 0, 0, 0) };
    assert!(host.matches(ip(192, 0, 2, 7)));
    assert!(!host.matches(ip(192, 0, 2, 8)));
    let any = AddressMatch::any();
    assert!(any.matches(ip(203, 0, 113, 9)));
    let subnet = standard(AccessListAction::Permit, ip(10, 1, 0, 0), ip(0, 0, 255, 255));
    assert!(subnet.matches(ip(10, 1, 200, 3)));
    assert!(!subnet.matches(ip(10, 2, 0, 3)));
}

fn routing_device() -> rios::Device {
    rios::Device::new(rios::DeviceId(90), "R90", rios::DeviceType::Router).unwrap()
}

fn plain_switch() -> rios::Device {
    rios::Device::new(rios::DeviceId(91), "SW91", rios::DeviceType::Switch).unwrap()
}
