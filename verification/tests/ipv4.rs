use rios::{
    checksum, AddressError, InterfaceId, IpProtocol, Ipv4Addr, Ipv4InterfaceConfig, Ipv4Network,
    Ipv4Packet, PacketError, Route, RouteSource, RoutingTable,
};

#[test]
fn masks() {
    for prefix in 0..=32 {
        let v = Ipv4InterfaceConfig::new(Ipv4Addr::localhost(), prefix).unwrap();
        assert_eq!(
            Ipv4InterfaceConfig::from_mask(v.address(), v.mask()).unwrap(),
            v
        );
    }
    assert!(Ipv4InterfaceConfig::new(Ipv4Addr::localhost(), 33).is_err());
    assert!(
        Ipv4InterfaceConfig::from_mask(Ipv4Addr::localhost(), Ipv4Addr::new(255, 0, 255, 0))
            .is_err()
    );
}

#[test]
fn mask_values() {
    let a = Ipv4Addr::new(10, 1, 2, 3);
    assert_eq!(Ipv4InterfaceConfig::new(a, 24).unwrap().mask(), Ipv4Addr::new(255, 255, 255, 0));
    assert_eq!(Ipv4InterfaceConfig::new(a, 0).unwrap().mask(), Ipv4Addr::new(0, 0, 0, 0));
    assert_eq!(Ipv4InterfaceConfig::new(a, 31).unwrap().mask(), Ipv4Addr::new(255, 255, 255, 254));
    let c = Ipv4InterfaceConfig::from_mask(a, Ipv4Addr::new(255, 255, 240, 0)).unwrap();
    assert_eq!(c.prefix_len(), 20);
    assert_eq!(c.address(), a);
    assert!(matches!(
        Ipv4InterfaceConfig::from_mask(a, Ipv4Addr::new(0, 255, 255, 255)),
        Err(AddressError::InvalidMask)
    ));
    assert!(matches!(
        Ipv4InterfaceConfig::new(a, 40),
        Err(AddressError::InvalidPrefix)
    ));
    assert_eq!(a.octets(), [10, 1, 2, 3]);
    assert_eq!(a.to_bits(), 0x0a01_0203);
}

#[test]
fn networks_normalize_and_contain() {
    let n = Ipv4Network::new(Ipv4Addr::new(192, 168, 7, 77), 22).unwrap();
    assert_eq!(n.address(), Ipv4Addr::new(192, 168, 4, 0));
    assert_eq!(n.prefix_len(), 22);
    assert_eq!(n.mask(), Ipv4Addr::new(255, 255, 252, 0));
    assert_eq!(n.broadcast(), Ipv4Addr::new(192, 168, 7, 255));
    assert!(n.contains(Ipv4Addr::new(192, 168, 5, 1)));
    assert!(!n.contains(Ipv4Addr::new(192, 168, 8, 0)));
    assert!(Ipv4Network::new(Ipv4Addr::new(1, 2, 3, 4), 33).is_err());
    let all = Ipv4Network::new(Ipv4Addr::new(1, 2, 3, 4), 0).unwrap();
    assert_eq!(all.address(), Ipv4Addr::new(0, 0, 0, 0));
    assert!(all.contains(Ipv4Addr::new(255, 255, 255, 255)));
}

#[test]
fn packet_round_trip_and_checksum_validation() {
    let packet = Ipv4Packet {
        source: Ipv4Addr::new(10, 0, 0, 1),
        destination: Ipv4Addr::new(10, 0, 0, 2),
        ttl: 64,
        protocol: IpProtocol::Icmp,
        payload: vec![1, 2, 3],
    };
    let mut bytes = packet.encode().unwrap();
    assert_eq!(Ipv4Packet::decode(&bytes).unwrap(), packet);
    bytes[12] ^= 1;
    assert_eq!(
        Ipv4Packet::decode(&bytes),
        Err(PacketError::InvalidChecksum)
    );
    assert_eq!(
        Ipv4Packet { ttl: 0, ..packet }.encode(),
        Err(PacketError::Expired)
    );
}

#[test]
fn checksum_known_values() {
    // RFC 1071 worked example.
    assert_eq!(checksum(&[0x00, 0x01, 0xf2, 0x03, 0xf4, 0xf5, 0xf6, 0xf7]), !0xddf2u16);
    assert_eq!(checksum(&[]), 0xffff);
    assert_eq!(checksum(&[0x01]), 0xfeff);
    let header = [
        0x45, 0x00, 0x00, 0x73, 0x00, 0x00, 0x40, 0x00, 0x40, 0x11, 0x00, 0x00, 0xc0, 0xa8, 0x00,
        0x01, 0xc0, 0xa8, 0x00, 0xc7,
    ];
    assert_eq!(checksum(&header), 0xb861);
}

#[test]
fn packet_header_fields_and_errors() {
    let packet = Ipv4Packet {
        source: Ipv4Addr::new(192, 0, 2, 1),
        destination: Ipv4Addr::new(198, 51, 100, 7),
        ttl: 3,
        protocol: IpProtocol::Other(250),
        payload: vec![9; 10],
    };
    let bytes = packet.encode().unwrap();
    assert_eq!(bytes.len(), 30);
    assert_eq!(&bytes[..4], &[0x45, 0, 0, 30]);
    assert_eq!(bytes[6], 0x40);
    assert_eq!(bytes[9], 250);
    assert_eq!(checksum(&bytes[..20]), 0);
    assert_eq!(Ipv4Packet::decode(&bytes[..19]), Err(PacketError::Truncated));
    let mut padded = bytes.clone();
    padded.extend_from_slice(&[0, 0]);
    assert_eq!(Ipv4Packet::decode(&padded).unwrap(), packet);
    let mut options = bytes.clone();
    options[0] = 0x46;
    assert_eq!(Ipv4Packet::decode(&options), Err(PacketError::UnsupportedHeader));
    let mut long = bytes.clone();
    long[3] = 31;
    assert_eq!(Ipv4Packet::decode(&long), Err(PacketError::InvalidLength));
    let huge = Ipv4Packet { payload: vec![0; 65516], ..packet.clone() };
    assert_eq!(huge.encode(), Err(PacketError::InvalidLength));
    let mut expired = Ipv4Packet { ttl: 1, ..packet }.encode().unwrap();
    expired[8] = 0;
    assert_eq!(Ipv4Packet::decode(&expired), Err(PacketError::InvalidChecksum));
    for value in [0u8, 1, 6, 17, 89, 255] {
        assert_eq!(IpProtocol::from_u8(value).to_u8(), value);
    }
    assert_eq!(IpProtocol::from_u8(17), IpProtocol::Udp);
    assert_eq!(IpProtocol::from(89u8), IpProtocol::Ospf);
    assert_eq!(u8::from(IpProtocol::Tcp), 6);
    assert_eq!(u8::from(IpProtocol::Other(250)), 250);
}

fn route(a: u8, b: u8, c: u8, d: u8, length: u8, distance: u8) -> Route {
    Route {
        prefix: Ipv4Network::new(Ipv4Addr::new(a, b, c, d), length).unwrap(),
        next_hop: None,
        outgoing_interface: None,
        administrative_distance: distance,
        metric: 0,
        source: RouteSource::Connected,
    }
}

#[test]
fn longest_prefix_then_distance_wins() {
    let mut table = RoutingTable::default();
    table.insert(route(0, 0, 0, 0, 0, 1));
    table.insert(route(10, 0, 0, 0, 8, 10));
    table.insert(route(10, 1, 0, 0, 16, 20));
    table.insert(route(10, 1, 0, 0, 16, 5));
    let best = table.lookup(Ipv4Addr::new(10, 1, 2, 3)).unwrap();
    assert_eq!(best.prefix.prefix_len(), 16);
    assert_eq!(best.administrative_distance, 5);
    assert_eq!(
        table
            .lookup(Ipv4Addr::new(192, 0, 2, 1))
            .unwrap()
            .prefix
            .prefix_len(),
        0
    );
}

#[test]
fn ties_keep_the_first_route_and_metric_breaks_distance_ties() {
    let mut table = RoutingTable::new();
    assert!(table.lookup(Ipv4Addr::new(10, 0, 0, 1)).is_none());
    let mut a = route(10, 0, 0, 0, 8, 1);
    a.outgoing_interface = Some(InterfaceId(1));
    let mut b = route(10, 0, 0, 0, 8, 1);
    b.outgoing_interface = Some(InterfaceId(2));
    table.insert(a);
    table.insert(b.clone());
    assert_eq!(table.lookup(Ipv4Addr::new(10, 9, 9, 9)).unwrap().outgoing_interface, Some(InterfaceId(1)));
    let mut c = route(10, 0, 0, 0, 8, 1);
    c.metric = 0;
    let mut d = b;
    d.metric = 7;
    let mut t2 = RoutingTable::new();
    t2.insert(d);
    t2.insert(c);
    assert_eq!(t2.lookup(Ipv4Addr::new(10, 0, 0, 1)).unwrap().metric, 0);
    assert_eq!(t2.routes().len(), 2);
    assert!(t2.lookup(Ipv4Addr::new(11, 0, 0, 1)).is_none());
}

#[test]
fn appending_the_checksum_makes_data_verify() {
    for data in [vec![], vec![0x45, 0x00, 0x12, 0x34], vec![0xff; 40], (0..=255u8).collect::<Vec<u8>>()] {
        let c = checksum(&data);
        let mut framed = data.clone();
        framed.extend_from_slice(&c.to_be_bytes());
        assert_eq!(checksum(&framed), 0);
    }
}
