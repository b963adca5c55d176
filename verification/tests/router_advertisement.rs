use rios::{
    slaac_valid_until, InterfaceId, Ipv6Addr, Ipv6Network, MacAddress, NeighborCache, PrefixInformation, RaOption,
    RouterState,
};

const ROUTER: Ipv6Addr = Ipv6Addr(0xfe80_0000_0000_0000_0000_0000_0000_0001);
const SECOND: u64 = 1_000_000;

fn prefix(valid: u32, preferred: u32) -> PrefixInformation {
    PrefixInformation {
        prefix: Ipv6Network::new(Ipv6Addr(0x2001_0db8_0000_0001 << 64), 64).unwrap(),
        on_link: true,
        autonomous: true,
        valid_lifetime: valid,
        preferred_lifetime: preferred,
    }
}

#[test]
fn advertisements_keep_routers_prefixes_and_the_router_address() {
    let mut state = RouterState::new();
    let mut cache = NeighborCache::new();
    let options = vec![RaOption::SourceLinkLayer(MacAddress([2, 0, 0, 0, 0, 1])), RaOption::Prefix(prefix(600, 300))];
    state.receive_advertisement(&mut cache, false, InterfaceId(1), ROUTER, 1800, &options, 0);
    assert_eq!(state.routers(), &[((InterfaceId(1), ROUTER), 1800 * SECOND)]);
    assert_eq!(state.prefixes().len(), 1);
    assert_eq!(state.prefixes()[0].1, 600 * SECOND);
    assert!(cache.neighbors()[0].1.router);
    state.receive_advertisement(&mut cache, false, InterfaceId(1), ROUTER, 0, &vec![RaOption::Prefix(prefix(0, 0))], 10);
    assert!(state.routers().is_empty());
    assert!(state.prefixes().is_empty());
}

#[test]
fn forwarding_devices_and_bad_prefixes_are_ignored() {
    let mut state = RouterState::new();
    let mut cache = NeighborCache::new();
    state.receive_advertisement(&mut cache, true, InterfaceId(1), ROUTER, 1800, &vec![RaOption::Prefix(prefix(600, 300))], 0);
    assert!(state.routers().is_empty());
    let inverted = RaOption::Prefix(prefix(300, 600));
    let link_local = RaOption::Prefix(PrefixInformation {
        prefix: Ipv6Network::new(ROUTER, 64).unwrap(),
        ..prefix(600, 300)
    });
    state.receive_advertisement(&mut cache, false, InterfaceId(1), ROUTER, 1800, &vec![inverted, link_local], 0);
    assert!(state.prefixes().is_empty());
    let forever = RaOption::Prefix(prefix(0xffff_ffff, 0xffff_ffff));
    state.receive_advertisement(&mut cache, false, InterfaceId(1), ROUTER, 1800, &vec![forever], 0);
    assert_eq!(state.prefixes()[0].1, u64::MAX);
}

#[test]
fn the_two_hour_rule_protects_remaining_lifetime() {
    let now = 1_000 * SECOND;
    assert_eq!(slaac_valid_until(Some(now + 100 * SECOND), 9000, now), Some(now + 9000 * SECOND));
    assert_eq!(slaac_valid_until(Some(now + 100 * SECOND), 300, now), Some(now + 300 * SECOND));
    assert_eq!(slaac_valid_until(Some(now + 100 * SECOND), 50, now), Some(now + 100 * SECOND));
    assert_eq!(slaac_valid_until(Some(now + 10_000 * SECOND), 60, now), Some(now + 7200 * SECOND));
    assert_eq!(slaac_valid_until(None, 60, now), Some(now + 7200 * SECOND));
    assert_eq!(slaac_valid_until(Some(now), 0xffff_ffff, now), None);
}
