use rios::{
    ospfv3_network_prefixes, ospfv3_prefixes, Ipv6Addr, Ipv6AddressEntry, Ipv6AddressOrigin,
    Ipv6AddressState, Ipv6Network, Ospfv3Prefix,
};

fn entry(prefix_len: u8, state: Ipv6AddressState, origin: Ipv6AddressOrigin) -> Ipv6AddressEntry {
    Ipv6AddressEntry {
        prefix_len,
        state,
        origin,
        preferred_until: None,
        valid_until: None,
        dad_due: None,
        dad_sent: false,
    }
}

fn shown(prefixes: &[Ospfv3Prefix]) -> Vec<(u128, u8, u8, u16)> {
    prefixes
        .iter()
        .map(|p| (p.prefix.address().0, p.prefix.prefix_len(), p.options, p.metric))
        .collect()
}

fn offer(address: u128, len: u8, options: u8, metric: u16) -> Ospfv3Prefix {
    Ospfv3Prefix {
        prefix: Ipv6Network::new(Ipv6Addr(address), len).unwrap(),
        options,
        metric,
    }
}

const A1: u128 = 0x2001_0db8_0001_0000_0000_0000_0000_0001;
const A3: u128 = 0x2001_0db8_0003_0000_0000_0000_0000_0007;

#[test]
fn interfaces_offer_their_usable_global_addresses() {
    let addresses = vec![
        (A1, entry(64, Ipv6AddressState::Preferred, Ipv6AddressOrigin::Manual)),
        (0xfe80_0000_0000_0000_0000_0000_0000_0001, entry(64, Ipv6AddressState::Preferred, Ipv6AddressOrigin::LinkLocal)),
        (0x2001_0db8_0002_0000_0000_0000_0000_0005, entry(48, Ipv6AddressState::Tentative, Ipv6AddressOrigin::Manual)),
        (A3, entry(64, Ipv6AddressState::Deprecated, Ipv6AddressOrigin::Slaac)),
        (0x2001_0db8_0004_0000_0000_0000_0000_0009, entry(64, Ipv6AddressState::Duplicate, Ipv6AddressOrigin::Manual)),
    ];
    assert_eq!(
        shown(&ospfv3_prefixes(&addresses, false, 10)),
        vec![
            (0x2001_0db8_0001_0000_0000_0000_0000_0000, 64, 0, 10),
            (0x2001_0db8_0003_0000_0000_0000_0000_0000, 64, 0, 10),
        ]
    );
    assert_eq!(
        shown(&ospfv3_prefixes(&addresses, true, 10)),
        vec![(A1, 128, 2, 0), (A3, 128, 2, 0)]
    );
    assert!(ospfv3_prefixes(&[], false, 1).is_empty());
}

#[test]
fn a_network_advertises_each_prefix_once_in_order_with_the_lowest_options() {
    let host = 0x2001_0db8_0000_0000_0000_0000_0000_0001;
    let net = 0x2001_0db8_0001_0000_0000_0000_0000_0000;
    let offers = vec![
        offer(net, 64, 0, 0),
        offer(net, 64, 0, 5),
        offer(host, 128, 2, 0),
        offer(host, 128, 0, 7),
        offer(host, 128, 0, 9),
        offer(net, 48, 0, 0),
    ];
    assert_eq!(
        shown(&ospfv3_network_prefixes(&offers)),
        vec![(host, 128, 0, 7), (net, 48, 0, 0), (net, 64, 0, 0)]
    );
    assert!(ospfv3_network_prefixes(&Vec::new()).is_empty());
}
