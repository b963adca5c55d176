use rios::{
    select_ipv6_route, InterfaceId, Ipv6Addr, Ipv6Network, Ipv6Route, Ipv6RouteSource,
    ResolvedIpv6Route,
};

fn addr(segments: [u16; 8]) -> Ipv6Addr {
    let mut value: u128 = 0;
    for s in segments {
        value = (value << 16) | u128::from(s);
    }
    Ipv6Addr(value)
}

fn route(prefix: [u16; 8], len: u8, interface: u64, distance: u8, metric: u32) -> Ipv6Route {
    Ipv6Route {
        prefix: Ipv6Network::new(addr(prefix), len).unwrap(),
        next_hop: None,
        interface: InterfaceId(interface),
        administrative_distance: distance,
        metric,
        source: Ipv6RouteSource::Static,
    }
}

const DOC: [u16; 8] = [0x2001, 0xdb8, 0, 0, 0, 0, 0, 0];
const DOC1: [u16; 8] = [0x2001, 0xdb8, 1, 0, 0, 0, 0, 0];
const ANY: [u16; 8] = [0; 8];
const LINK: [u16; 8] = [0xfe80, 0, 0, 0, 0, 0, 0, 0];

#[test]
fn ipv6_networks_normalize_and_contain() {
    let n = Ipv6Network::new(addr([0x2001, 0xdb8, 1, 2, 3, 4, 5, 6]), 32).unwrap();
    assert_eq!(n.address(), addr(DOC));
    assert_eq!(n.prefix_len(), 32);
    assert!(n.contains(addr([0x2001, 0xdb8, 0xffff, 0, 0, 0, 0, 1])));
    assert!(!n.contains(addr([0x2001, 0xdb9, 0, 0, 0, 0, 0, 1])));
    assert!(Ipv6Network::new(addr(DOC), 129).is_none());
    let all = Ipv6Network::new(addr(DOC), 0).unwrap();
    assert_eq!(all.address(), Ipv6Addr(0));
    assert!(all.contains(addr([0xffff; 8])));
    let host = Ipv6Network::new(addr([0xffff; 8]), 128).unwrap();
    assert_eq!(host.address(), addr([0xffff; 8]));
    assert!(addr(LINK).is_unicast_link_local());
    assert!(addr([0xfebf, 0, 0, 0, 0, 0, 0, 1]).is_unicast_link_local());
    assert!(!addr([0xfec0, 0, 0, 0, 0, 0, 0, 1]).is_unicast_link_local());
}

#[test]
fn longest_prefix_then_distance_metric_and_interface() {
    let destination = addr([0x2001, 0xdb8, 1, 0, 0, 0, 0, 5]);
    let routes = vec![route(ANY, 0, 1, 2, 0), route(DOC, 32, 2, 1, 0), route(DOC1, 48, 3, 1, 0)];
    assert_eq!(select_ipv6_route(&routes, destination, None), Some(2));

    let ties = vec![
        route(DOC, 32, 4, 2, 0),
        route(DOC, 32, 5, 1, 9),
        route(DOC, 32, 6, 1, 3),
        route(DOC, 32, 3, 1, 3),
        route(DOC, 32, 3, 1, 3),
    ];
    assert_eq!(select_ipv6_route(&ties, destination, None), Some(3));
    assert_eq!(select_ipv6_route(&ties, destination, Some(InterfaceId(6))), Some(2));
    assert_eq!(select_ipv6_route(&ties, destination, Some(InterfaceId(9))), None);
    assert_eq!(select_ipv6_route(&ties, addr([0x2002, 0, 0, 0, 0, 0, 0, 1]), None), None);
}

#[test]
fn link_local_destinations_need_an_unambiguous_link() {
    let destination = addr([0xfe80, 0, 0, 0, 0, 0, 0, 1]);
    let routes = vec![route(ANY, 0, 9, 2, 0), route(LINK, 64, 1, 0, 0), route(LINK, 64, 2, 0, 0)];
    assert_eq!(select_ipv6_route(&routes, destination, None), None);
    assert_eq!(select_ipv6_route(&routes, destination, Some(InterfaceId(2))), Some(2));
    let single = vec![route(ANY, 0, 9, 2, 0), route(LINK, 64, 1, 0, 0)];
    assert_eq!(select_ipv6_route(&single, destination, None), Some(1));
}

#[test]
fn resolved_route_falls_back_to_destination() {
    let destination = addr([0x2001, 0xdb8, 0, 0, 0, 0, 0, 7]);
    let source = addr([0x2001, 0xdb8, 0, 0, 0, 0, 0, 1]);
    let connected = route(DOC, 32, 1, 0, 0);
    let resolved = ResolvedIpv6Route::through(&connected, source, destination);
    assert_eq!(resolved, ResolvedIpv6Route { interface: InterfaceId(1), source_ip: source, next_hop: destination });
    let mut via = route(ANY, 0, 2, 1, 0);
    via.next_hop = Some(addr([0xfe80, 0, 0, 0, 0, 0, 0, 0x99]));
    assert_eq!(ResolvedIpv6Route::through(&via, source, destination).next_hop, addr([0xfe80, 0, 0, 0, 0, 0, 0, 0x99]));
}
