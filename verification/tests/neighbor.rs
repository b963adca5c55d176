use rios::{InterfaceId, Ipv6Addr, Ipv6NeighborState, MacAddress, NeighborCache};

const LINK_LOCAL: Ipv6Addr = Ipv6Addr(0xfe80_0000_0000_0000_0000_0000_0000_0002);

fn mac(n: u8) -> MacAddress {
    MacAddress([2, 0, 0, 0, 0, n])
}

fn entry(cache: &NeighborCache) -> rios::Ipv6Neighbor {
    cache.neighbors()[0].1
}

#[test]
fn learned_neighbors_start_stale_and_ignore_bad_addresses() {
    let mut cache = NeighborCache::new();
    cache.learn_neighbor(InterfaceId(1), Ipv6Addr(0), mac(1), false, 0);
    cache.learn_neighbor(InterfaceId(1), Ipv6Addr(0xff02 << 112), mac(1), false, 0);
    cache.learn_neighbor(InterfaceId(1), LINK_LOCAL, MacAddress([1, 0, 0, 0, 0, 1]), false, 0);
    cache.learn_neighbor(InterfaceId(1), LINK_LOCAL, MacAddress([0; 6]), false, 0);
    assert!(cache.neighbors().is_empty());
    cache.learn_neighbor(InterfaceId(1), LINK_LOCAL, mac(1), true, 0);
    let n = entry(&cache);
    assert_eq!((n.mac, n.state, n.router, n.deadline), (Some(mac(1)), Ipv6NeighborState::Stale, true, 300_000_000));
    cache.learn_neighbor(InterfaceId(1), LINK_LOCAL, mac(1), false, 5_000_000);
    assert_eq!(entry(&cache).deadline, 300_000_000);
    assert!(entry(&cache).router);
    cache.learn_neighbor(InterfaceId(2), LINK_LOCAL, mac(1), false, 0);
    assert_eq!(cache.neighbors().len(), 2);
}

#[test]
fn advertisements_confirm_update_and_demote_routers() {
    let mut cache = NeighborCache::new();
    assert!(!cache.receive_advertisement(InterfaceId(1), LINK_LOCAL, Some(mac(1)), false, true, true, false, 0));
    assert!(cache.neighbors().is_empty());
    cache.learn_neighbor(InterfaceId(1), LINK_LOCAL, mac(1), true, 0);
    assert!(!cache.receive_advertisement(InterfaceId(1), LINK_LOCAL, Some(mac(1)), true, true, false, false, 10));
    assert_eq!((entry(&cache).state, entry(&cache).deadline), (Ipv6NeighborState::Reachable, 30_000_010));
    assert!(!cache.receive_advertisement(InterfaceId(1), LINK_LOCAL, Some(mac(2)), true, true, false, false, 20));
    assert_eq!((entry(&cache).mac, entry(&cache).state), (Some(mac(1)), Ipv6NeighborState::Stale));
    assert!(!cache.receive_advertisement(InterfaceId(1), LINK_LOCAL, Some(mac(2)), true, false, true, false, 30));
    assert_eq!((entry(&cache).mac, entry(&cache).state), (Some(mac(2)), Ipv6NeighborState::Stale));
    assert!(cache.receive_advertisement(InterfaceId(1), LINK_LOCAL, None, false, false, false, false, 40));
    assert!(!entry(&cache).router);
    assert!(!cache.receive_advertisement(InterfaceId(1), LINK_LOCAL, Some(mac(3)), false, true, true, true, 50));
    assert_eq!(entry(&cache).mac, Some(mac(2)));
}

#[test]
fn neighbors_are_listed_by_interface_then_address() {
    let mut cache = NeighborCache::new();
    cache.learn_neighbor(InterfaceId(2), LINK_LOCAL, mac(1), false, 0);
    cache.learn_neighbor(InterfaceId(1), Ipv6Addr(LINK_LOCAL.0 + 1), mac(2), false, 0);
    cache.learn_neighbor(InterfaceId(1), LINK_LOCAL, mac(3), false, 0);
    let keys: Vec<(u64, u128)> = cache.neighbors().iter().map(|(k, _)| (k.0 .0, k.1 .0)).collect();
    assert_eq!(keys, vec![(1, LINK_LOCAL.0), (1, LINK_LOCAL.0 + 1), (2, LINK_LOCAL.0)]);
}
