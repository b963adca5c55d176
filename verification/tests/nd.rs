use rios::nd::{ALL_NODES, ALL_ROUTERS};
use rios::{
    nd_destination_accepted, receive_router_solicitation, receive_solicitation, InterfaceAddresses, InterfaceId,
    Ipv6AddressEntry, Ipv6AddressOrigin, Ipv6AddressState, Ipv6Addr, Ipv6Network, MacAddress, NeighborCache,
    PrefixInformation,
};

const OWN: Ipv6Addr = Ipv6Addr(0xfe80_0000_0000_0000_0000_0000_0000_0001);
const PEER: Ipv6Addr = Ipv6Addr(0xfe80_0000_0000_0000_0000_0000_0000_0002);
const SECOND: u64 = 1_000_000;

fn mac(n: u8) -> MacAddress {
    MacAddress([2, 0, 0, 0, 0, n])
}

#[test]
fn destinations_are_filtered_by_group() {
    let own = [Ipv6Addr(0x2001_0db8_0000_0000_0000_0000_00ab_cdef)];
    assert!(nd_destination_accepted(PEER, false, &own));
    assert!(nd_destination_accepted(Ipv6Addr(ALL_NODES), false, &own));
    assert!(!nd_destination_accepted(Ipv6Addr(ALL_ROUTERS), false, &own));
    assert!(nd_destination_accepted(Ipv6Addr(ALL_ROUTERS), true, &own));
    assert!(nd_destination_accepted(Ipv6Addr(0xff02_0000_0000_0000_0000_0001_ffab_cdef), false, &own));
    assert!(!nd_destination_accepted(Ipv6Addr(0xff02_0000_0000_0000_0000_0001_ff00_0001), false, &own));
}

#[test]
fn solicitations_are_answered_and_teach_the_solicitor() {
    let mut cache = NeighborCache::new();
    assert_eq!(receive_solicitation(&mut cache, InterfaceId(1), PEER, mac(2), Some(mac(2)), OWN, false, false, false, mac(1), 0), None);
    assert!(cache.neighbors().is_empty());
    let answer = receive_solicitation(&mut cache, InterfaceId(1), PEER, mac(2), Some(mac(2)), OWN, true, false, true, mac(1), 0).unwrap();
    assert_eq!((answer.destination, answer.destination_mac, answer.target_mac), (PEER, Some(mac(2)), mac(1)));
    assert!(answer.solicited && answer.override_flag && answer.router);
    assert_eq!(cache.neighbors().len(), 1);
    let dad = receive_solicitation(&mut cache, InterfaceId(1), Ipv6Addr(0), mac(3), None, OWN, true, false, false, mac(1), 0).unwrap();
    assert_eq!((dad.destination, dad.destination_mac, dad.solicited), (Ipv6Addr(ALL_NODES), None, false));
    assert_eq!(receive_solicitation(&mut cache, InterfaceId(1), PEER, mac(2), None, OWN, true, true, false, mac(1), 0), None);
}

#[test]
fn router_solicitations_bring_the_next_advertisement_forward() {
    let mut cache = NeighborCache::new();
    assert_eq!(receive_router_solicitation(&mut cache, InterfaceId(1), PEER, Some(mac(2)), false, false, 100 * SECOND, None, 10 * SECOND), 100 * SECOND);
    assert!(cache.neighbors().is_empty());
    assert_eq!(receive_router_solicitation(&mut cache, InterfaceId(1), PEER, Some(mac(2)), true, false, 100 * SECOND, None, 10 * SECOND), 10 * SECOND);
    assert_eq!(cache.neighbors().len(), 1);
    assert_eq!(receive_router_solicitation(&mut cache, InterfaceId(1), PEER, None, true, false, 100 * SECOND, Some(9 * SECOND), 10 * SECOND), 12 * SECOND);
    assert_eq!(receive_router_solicitation(&mut cache, InterfaceId(1), PEER, None, true, true, 100 * SECOND, None, 10 * SECOND), 100 * SECOND);
}

fn prefix(valid: u32, preferred: u32) -> PrefixInformation {
    PrefixInformation {
        prefix: Ipv6Network::new(Ipv6Addr(0x2001_0db8_0000_0001 << 64), 64).unwrap(),
        on_link: true,
        autonomous: true,
        valid_lifetime: valid,
        preferred_lifetime: preferred,
    }
}

#[test]
fn autoconfiguration_forms_and_refreshes_addresses() {
    let mut addresses = InterfaceAddresses::new();
    addresses.slaac_update(prefix(600, 300), false, mac(1), 0);
    assert!(addresses.addresses().is_empty());
    addresses.slaac_update(prefix(600, 300), true, MacAddress([0x02, 0x11, 0x22, 0x33, 0x44, 0x55]), 0);
    let (address, entry) = addresses.addresses()[0];
    assert_eq!(address, (0x2001_0db8_0000_0001u128 << 64) | 0x0011_22ff_fe33_4455);
    assert_eq!(entry.state, Ipv6AddressState::Tentative);
    assert_eq!((entry.valid_until, entry.preferred_until, entry.dad_due), (Some(600 * SECOND), Some(300 * SECOND), Some(0)));
    assert!(addresses.mark_duplicate(address));
    assert_eq!(addresses.addresses()[0].1.state, Ipv6AddressState::Duplicate);
    assert!(!addresses.mark_duplicate(address));
    addresses.set_address(address, Ipv6AddressEntry { state: Ipv6AddressState::Preferred, ..entry });
    addresses.slaac_update(prefix(60, 0), true, MacAddress([0x02, 0x11, 0x22, 0x33, 0x44, 0x55]), 10 * SECOND);
    let refreshed = addresses.addresses()[0].1;
    assert_eq!(refreshed.state, Ipv6AddressState::Deprecated);
    assert_eq!(refreshed.valid_until, Some(600 * SECOND));
    assert_eq!(refreshed.origin, Ipv6AddressOrigin::Slaac);
}
