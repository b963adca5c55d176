use rios::{
    checksum, AccessListAction, AclEntry, AclKind, AclProtocol, AclTable, AddressMatch, Device, DeviceError, EtherType,
    EthernetFrame, IpProtocol, Ipv4Addr, Ipv4Packet, MacAddress, PortMatch, QosClassMap, QosConfig, QosPolicyClass, QosRate,
    VlanId,
};

/// The IPv4 packet's bytes with type of service `tos`.
fn with_tos(ip: &Ipv4Packet, tos: u8) -> Vec<u8> {
    let mut bytes = ip.encode().unwrap();
    bytes[1] = tos;
    bytes[10] = 0;
    bytes[11] = 0;
    let sum = checksum(&bytes[..20]);
    bytes[10] = (sum >> 8) as u8;
    bytes[11] = sum as u8;
    bytes
}

fn frame(ip: &Ipv4Packet, tos: u8) -> EthernetFrame {
    EthernetFrame {
        source: MacAddress([2, 0, 0, 0, 0, 1]),
        destination: MacAddress([2, 0, 0, 0, 0, 2]),
        ethertype: EtherType::Ipv4,
        payload: with_tos(ip, tos),
    }
}

#[test]
fn class_maps_match_real_dscp_precedence_acl_ports_and_vlan_tags() {
    let d = Device::standalone();
    let mut qos = QosConfig::new();
    let mut acls = AclTable::new();
    let class = qos.ensure_qos_class("DNS", true, &routing_device()).unwrap();
    let acl = acls.ensure_acl("DNS", AclKind::Extended, &routing_device()).unwrap();
    acls.set_acl_entry(
        acl,
        None,
        AclEntry::Rule {
            action: AccessListAction::Permit,
            protocol: AclProtocol::Udp,
            source: AddressMatch::any(),
            source_port: PortMatch::Any,
            destination: AddressMatch::any(),
            destination_port: PortMatch::Eq(53),
            log: false,
        },
    )
    .unwrap();
    let mut criteria: QosClassMap = qos.classes()[0].1.clone();
    criteria.dscp.push(46);
    criteria.access_lists.push("DNS".to_string());
    qos.set_qos_class(class, criteria.clone()).unwrap();
    let policy = qos.ensure_qos_policy("OUT", &routing_device()).unwrap();
    qos.ensure_qos_policy_class(policy, "DNS").unwrap();
    let mut ip = Ipv4Packet {
        source: Ipv4Addr::new(10, 0, 0, 1),
        destination: Ipv4Addr::new(10, 0, 0, 2),
        ttl: 64,
        protocol: IpProtocol::Udp,
        payload: vec![0x12, 0x34, 0, 53, 0, 8, 0, 0],
    };
    let mut tos: u8 = 46 << 2;
    assert_eq!(qos.qos_classify(&acls, policy, &frame(&ip, tos)), Some(0));
    assert_eq!(qos.qos_classify(&acls, policy, &frame(&ip, tos).tagged(VlanId::new(10).unwrap())), Some(0));
    ip.payload[3] = 54;
    assert_eq!(qos.qos_classify(&acls, policy, &frame(&ip, tos)), Some(1));
    criteria.match_all = false;
    qos.set_qos_class(class, criteria.clone()).unwrap();
    assert_eq!(qos.qos_classify(&acls, policy, &frame(&ip, tos)), Some(0));
    criteria.dscp.clear();
    criteria.access_lists.clear();
    criteria.precedence.push(5);
    qos.set_qos_class(class, criteria.clone()).unwrap();
    assert_eq!(qos.qos_classify(&acls, policy, &frame(&ip, tos)), Some(0));
    tos = 0;
    assert_eq!(qos.qos_classify(&acls, policy, &frame(&ip, tos)), Some(1));
    let mut invalid = criteria;
    invalid.dscp.push(64);
    assert!(qos.set_qos_class(class, invalid).is_err());
    assert!(qos.remove_qos_class("DNS").is_err());
    let port = d.find_interface("GigabitEthernet0/0").unwrap();
    qos.set_service_policy_output(&d, port, Some(policy)).unwrap();
    assert!(qos.remove_qos_policy("OUT").is_err());
    assert!(qos
        .set_qos_policy_class(
            policy,
            QosPolicyClass {
                class: Some(class),
                bandwidth_kbps: None,
                priority: None,
                police: Some(QosRate { bits_per_second: 0, burst_bytes: None }),
                shape: None,
            }
        )
        .is_err());
}

#[test]
fn policy_maps_keep_class_default_last_and_bindings_need_ethernet() {
    let d = Device::standalone();
    let mut qos = QosConfig::new();
    assert_eq!(qos.ensure_qos_class("class-default", true, &routing_device()), Err(DeviceError::InvalidQosConfig));
    assert_eq!(qos.ensure_qos_class("VOICE", true, &plain_host()), Err(DeviceError::InvalidQosConfig));
    let voice = qos.ensure_qos_class("VOICE", true, &routing_device()).unwrap();
    assert_eq!(qos.ensure_qos_class("VOICE", false, &routing_device()), Ok(voice));
    assert!(!qos.classes()[0].1.match_all);
    let video = qos.ensure_qos_class("VIDEO", true, &routing_device()).unwrap();
    assert_eq!(video, voice + 1);
    let policy = qos.ensure_qos_policy("EDGE", &routing_device()).unwrap();
    assert_eq!(qos.ensure_qos_policy("EDGE", &routing_device()), Ok(policy));
    assert_eq!(qos.ensure_qos_policy_class(policy, "VOICE"), Ok(Some(voice)));
    assert_eq!(qos.ensure_qos_policy_class(policy, "VIDEO"), Ok(Some(video)));
    assert_eq!(qos.ensure_qos_policy_class(policy, "class-default"), Ok(None));
    assert!(qos.ensure_qos_policy_class(policy, "DATA").is_err());
    let order: Vec<Option<u32>> = qos.policies()[0].1.classes.iter().map(|c| c.class).collect();
    assert_eq!(order, vec![Some(voice), Some(video), None]);
    let priority = QosPolicyClass {
        class: Some(voice),
        bandwidth_kbps: None,
        priority: Some(QosRate { bits_per_second: 64_000, burst_bytes: None }),
        police: None,
        shape: None,
    };
    qos.set_qos_policy_class(policy, priority).unwrap();
    assert!(qos.set_qos_policy_class(policy, QosPolicyClass { bandwidth_kbps: Some(100), ..priority }).is_err());
    assert!(qos
        .set_qos_policy_class(policy, QosPolicyClass { priority: Some(QosRate { bits_per_second: 64_500, burst_bytes: None }), ..priority })
        .is_err());
    qos.remove_qos_policy_class(policy, "VIDEO").unwrap();
    assert_eq!(qos.policies()[0].1.classes.len(), 2);
    qos.remove_qos_policy_class(policy, "class-default").unwrap();
    qos.remove_qos_class("VIDEO").unwrap();
    assert_eq!(qos.classes().len(), 1);
    let lo = d.find_interface("Loopback0");
    if let Some(lo) = lo {
        assert!(qos.set_service_policy_output(&d, lo, Some(policy)).is_err());
    }
    let port = d.find_interface("GigabitEthernet0/0").unwrap();
    assert!(qos.set_service_policy_output(&d, port, Some(policy + 7)).is_err());
    qos.set_service_policy_output(&d, port, Some(policy)).unwrap();
    qos.set_service_policy_output(&d, port, None).unwrap();
    qos.remove_qos_policy("EDGE").unwrap();
    assert!(qos.policies().is_empty());
}

fn routing_device() -> rios::Device {
    rios::Device::new(rios::DeviceId(90), "R90", rios::DeviceType::Router).unwrap()
}

fn plain_host() -> rios::Device {
    rios::Device::new(rios::DeviceId(92), "H92", rios::DeviceType::Host).unwrap()
}
