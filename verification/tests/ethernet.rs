use rios::{EtherType, EthernetFrame, FrameError, MacAddress, VlanId};

#[test]
fn address_round_trip() {
    let mac: MacAddress = "02:00:aa:01:02:ff".parse().unwrap();
    assert_eq!(mac.to_string(), "02:00:aa:01:02:ff");
    for bad in ["00:00", "000:00:00:00:00:00", "zz:00:00:00:00:00"] {
        assert!(bad.parse::<MacAddress>().is_err());
    }
}

#[test]
fn envelope_round_trip_and_validation() {
    for ethertype in [
        EtherType::Ipv4,
        EtherType::Arp,
        EtherType::Dot1Q,
        EtherType::Other(0x88b5),
    ] {
        let frame = EthernetFrame {
            destination: MacAddress::broadcast(),
            source: MacAddress([2, 0, 0, 0, 0, 1]),
            ethertype,
            payload: vec![1, 2, 3, 4],
        };
        let bytes = frame.encode().unwrap();
        assert_eq!(bytes.len(), 18);
        assert_eq!(EthernetFrame::decode(&bytes).unwrap(), frame);
    }
    assert_eq!(EthernetFrame::decode(&[0; 13]), Err(FrameError::Truncated));
    assert_eq!(
        EthernetFrame::decode(&[0; 14]),
        Err(FrameError::LengthField)
    );
    assert!(MacAddress::broadcast().is_multicast());
    assert!(!MacAddress([2, 0, 0, 0, 0, 1]).is_multicast());
}

#[test]
fn llc_length_fields_preserve_payload_and_allow_wire_padding() {
    let frame = EthernetFrame {
        source: MacAddress([2, 0, 0, 0, 0, 1]),
        destination: MacAddress([1, 0x80, 0xc2, 0, 0, 0]),
        ethertype: EtherType::Length(4),
        payload: vec![0x42, 0x42, 3, 0],
    };
    let mut bytes = frame.encode().unwrap();
    bytes.resize(60, 0);
    assert_eq!(EthernetFrame::decode(&bytes).unwrap(), frame);
    let tagged = frame.clone().tagged(VlanId::new(10).unwrap());
    assert_eq!(tagged.untagged().unwrap().1, frame);
    bytes[12..14].copy_from_slice(&100u16.to_be_bytes());
    assert_eq!(EthernetFrame::decode(&bytes), Err(FrameError::Truncated));
}

#[test]
fn dot1q_tag_round_trip() {
    let frame = EthernetFrame {
        destination: MacAddress::broadcast(),
        source: MacAddress([2, 0, 0, 0, 0, 1]),
        ethertype: EtherType::Arp,
        payload: vec![1, 2, 3],
    };
    let tagged = frame.clone().tagged(VlanId::new(10).unwrap());
    assert_eq!(tagged.ethertype, EtherType::Dot1Q);
    assert_eq!(
        tagged.untagged().unwrap(),
        (VlanId::new(10).unwrap(), frame)
    );
}

#[test]
fn mac_text_is_lower_case_and_parse_accepts_upper_case() {
    let mac = MacAddress([0xAB, 0x0c, 0, 0xff, 0x10, 0x01]);
    assert_eq!(mac.to_string(), "ab:0c:00:ff:10:01");
    let parsed: MacAddress = "AB:0C:00:FF:10:01".parse().unwrap();
    assert_eq!(parsed, mac);
    assert_eq!(mac.to_string().parse::<MacAddress>().unwrap(), mac);
    assert!("ab-0c-00-ff-10-01".parse::<MacAddress>().is_err());
    assert!("ab:0c:00:ff:10:0g".parse::<MacAddress>().is_err());
    assert!("ab:0c:00:ff:10:01:".parse::<MacAddress>().is_err());
    assert!(MacAddress::parse("é:00:00:00:00:00").is_err());
}

#[test]
fn multicast_bit_is_the_group_bit() {
    assert!(MacAddress([1, 0, 0x5e, 0, 0, 1]).is_multicast());
    assert!(MacAddress([0x33, 0x33, 0, 0, 0, 1]).is_multicast());
    assert!(!MacAddress([0, 0, 0, 0, 0, 0]).is_multicast());
}

#[test]
fn vlan_range_is_enforced() {
    assert!(VlanId::new(0).is_err());
    assert!(VlanId::new(4095).is_err());
    assert_eq!(VlanId::new(1).unwrap().get(), 1);
    assert_eq!(VlanId::new(4094).unwrap().get(), 4094);
}

#[test]
fn ethertype_values_round_trip() {
    for value in [0u16, 2, 3, 1500, 1501, 1535, 1536, 0x0800, 0x86dd, 0x0806, 0x8100, 0xffff] {
        assert_eq!(EtherType::from_u16(value).to_u16(), value);
    }
    assert_eq!(EtherType::from_u16(0x0800), EtherType::Ipv4);
    assert_eq!(EtherType::from_u16(0x86dd), EtherType::Ipv6);
    assert_eq!(EtherType::from_u16(1500), EtherType::Length(1500));
    assert_eq!(EtherType::from_u16(1501), EtherType::Other(1501));
    assert_eq!(EtherType::from_u16(2), EtherType::Other(2));
    assert_eq!(EtherType::from(0x0806u16), EtherType::Arp);
    assert_eq!(u16::from(EtherType::Dot1Q), 0x8100);
    let raw: u16 = EtherType::Length(46).into();
    assert_eq!(raw, 46);
}

#[test]
fn frame_validation_and_encoding_errors() {
    let mut frame = EthernetFrame {
        destination: MacAddress::broadcast(),
        source: MacAddress([2, 0, 0, 0, 0, 1]),
        ethertype: EtherType::Length(5),
        payload: vec![1, 2, 3, 4],
    };
    assert!(!frame.valid_length_or_type());
    assert_eq!(frame.encode(), Err(FrameError::LengthField));
    frame.ethertype = EtherType::Other(0x0500);
    assert_eq!(frame.encode(), Err(FrameError::LengthField));
    frame.ethertype = EtherType::Ipv6;
    assert_eq!(frame.len(), 18);
    assert!(!frame.is_empty());
    let bytes = frame.encode().unwrap();
    assert_eq!(&bytes[..6], &[0xff; 6]);
    assert_eq!(&bytes[6..12], &[2, 0, 0, 0, 0, 1]);
    assert_eq!(&bytes[12..14], &[0x86, 0xdd]);
    assert_eq!(&bytes[14..], &[1, 2, 3, 4]);
    let mut raw = bytes.clone();
    raw[12] = 0x05;
    raw[13] = 0xff;
    assert_eq!(EthernetFrame::decode(&raw), Err(FrameError::LengthField));
}

#[test]
fn untagging_rejects_bad_tags() {
    let frame = EthernetFrame {
        destination: MacAddress::broadcast(),
        source: MacAddress([2, 0, 0, 0, 0, 1]),
        ethertype: EtherType::Dot1Q,
        payload: vec![0x00, 0x00, 0x08, 0x00],
    };
    assert_eq!(frame.untagged(), Err(FrameError::InvalidVlanTag));
    let mut nested = frame.clone();
    nested.payload = vec![0x00, 0x0a, 0x81, 0x00, 9];
    assert_eq!(nested.untagged(), Err(FrameError::InvalidVlanTag));
    let mut short = frame.clone();
    short.payload = vec![0x00, 0x0a, 0x08];
    assert_eq!(short.untagged(), Err(FrameError::InvalidVlanTag));
    let mut priority = frame.clone();
    priority.payload = vec![0xe0, 0x0a, 0x08, 0x00, 7];
    let (vlan, inner) = priority.untagged().unwrap();
    assert_eq!(vlan.get(), 10);
    assert_eq!(inner.ethertype, EtherType::Ipv4);
    assert_eq!(inner.payload, vec![7]);
    let mut untyped = frame;
    untyped.ethertype = EtherType::Ipv4;
    assert_eq!(untyped.untagged(), Err(FrameError::InvalidVlanTag));
}
