use rios::network::ARP_LIFETIME_US;
use rios::{
    build_routing_table, connected_source, resolve_route, ArpCache, DeviceError, InterfaceId,
    Ipv4Addr, Ipv4InterfaceConfig, Ipv4Network, MacAddress, Route, RouteSource, StaticRoutes,
};

fn ip(a: u8, b: u8, c: u8, d: u8) -> Ipv4Addr {
    Ipv4Addr::new(a, b, c, d)
}

fn net(a: u8, b: u8, c: u8, d: u8, len: u8) -> Ipv4Network {
    Ipv4Network::new(ip(a, b, c, d), len).unwrap()
}

#[test]
fn connected_routes_and_arp_aging_follow_virtual_state() {
    let id = InterfaceId(1);
    let up = [(id, Ipv4InterfaceConfig::new(ip(10, 0, 0, 1), 24).unwrap())];
    let table = build_routing_table(&up, &StaticRoutes::new(), &[], &[]);
    let own_mac = MacAddress([2, 0, 0, 0, 0, 1]);
    let addrs = [(id, ip(10, 0, 0, 1), own_mac)];
    assert!(connected_source(&table, ip(10, 0, 0, 99), &addrs).is_some());
    assert!(connected_source(&table, ip(10, 0, 1, 1), &addrs).is_none());
    let mac = MacAddress([2, 0, 0, 0, 0, 2]);
    let mut arp = ArpCache::new();
    arp.learn_arp(ip(10, 0, 0, 2), mac, id, true, 10_000).unwrap();
    let live = arp.arp_entries(60_010_000);
    assert!(live.iter().any(|e| e.address == ip(10, 0, 0, 2)));
    assert!(arp.arp_lookup(ip(10, 0, 0, 2), ARP_LIFETIME_US + 10_000).is_none());
}

#[test]
fn arp_entries_refresh_expire_and_need_an_interface() {
    let mut arp = ArpCache::new();
    let mac = MacAddress([2, 0, 0, 0, 0, 9]);
    assert_eq!(arp.learn_arp(ip(10, 0, 0, 9), mac, InterfaceId(7), false, 0), Err(DeviceError::MissingInterface));
    arp.learn_arp(ip(10, 0, 0, 9), mac, InterfaceId(7), true, 0).unwrap();
    arp.learn_arp(ip(10, 0, 0, 3), mac, InterfaceId(7), true, 5).unwrap();
    assert_eq!(arp.arp_lookup(ip(10, 0, 0, 9), ARP_LIFETIME_US - 1).unwrap().learned_at, 0);
    arp.learn_arp(ip(10, 0, 0, 9), mac, InterfaceId(8), true, 1_000).unwrap();
    let entry = arp.arp_lookup(ip(10, 0, 0, 9), ARP_LIFETIME_US).unwrap();
    assert_eq!((entry.interface, entry.learned_at), (InterfaceId(8), 1_000));
    let order: Vec<Ipv4Addr> = arp.arp_entries(ARP_LIFETIME_US).iter().map(|e| e.address).collect();
    assert_eq!(order, vec![ip(10, 0, 0, 3), ip(10, 0, 0, 9)]);
    let order: Vec<Ipv4Addr> = arp.arp_entries(ARP_LIFETIME_US + 5).iter().map(|e| e.address).collect();
    assert_eq!(order, vec![ip(10, 0, 0, 9)]);
    assert!(arp.arp_lookup(ip(10, 0, 0, 3), 6).is_none());
    assert!(arp.arp_lookup(ip(10, 0, 0, 9), ARP_LIFETIME_US + 1_000).is_none());
    assert!(arp.arp_entries(0).is_empty());
}

#[test]
fn static_dhcp_and_protocol_routes_join_the_table() {
    let a = InterfaceId(1);
    let b = InterfaceId(2);
    let up = [
        (a, Ipv4InterfaceConfig::new(ip(10, 0, 0, 1), 24).unwrap()),
        (b, Ipv4InterfaceConfig::new(ip(192, 0, 2, 1), 30).unwrap()),
    ];
    let mut statics = StaticRoutes::new();
    statics.set_static_route(net(172, 16, 0, 0, 16), ip(10, 0, 0, 254));
    statics.set_static_route(net(198, 51, 100, 0, 24), ip(203, 0, 113, 1));
    statics.set_static_route(net(172, 16, 0, 0, 16), ip(192, 0, 2, 2));
    assert_eq!(statics.routes().len(), 2);
    let ospf = Route {
        prefix: net(172, 16, 5, 0, 24),
        next_hop: Some(ip(10, 0, 0, 7)),
        outgoing_interface: Some(a),
        administrative_distance: 110,
        metric: 20,
        source: RouteSource::Ospf,
    };
    let leases = [(a, ip(10, 0, 0, 254)), (b, ip(203, 0, 113, 9))];
    let table = build_routing_table(&up, &statics, &leases, &[ospf]);
    let routes = table.routes();
    assert_eq!(routes.len(), 5);
    assert_eq!(routes[0].source, RouteSource::Connected);
    assert_eq!(routes[0].prefix, net(10, 0, 0, 0, 24));
    assert_eq!(routes[2].next_hop, Some(ip(192, 0, 2, 2)));
    assert_eq!(routes[2].outgoing_interface, Some(b));
    assert_eq!(routes[3].prefix, net(0, 0, 0, 0, 0));
    assert_eq!(routes[3].outgoing_interface, Some(a));
    assert_eq!(routes[4], ospf);
    let addrs = [(a, ip(10, 0, 0, 1), MacAddress([2, 0, 0, 0, 0, 1])), (b, ip(192, 0, 2, 1), MacAddress([2, 0, 0, 0, 0, 2]))];
    let via = resolve_route(&table, ip(172, 16, 9, 9), &addrs).unwrap();
    assert_eq!((via.interface, via.next_hop, via.source_ip), (b, ip(192, 0, 2, 2), ip(192, 0, 2, 1)));
    let specific = resolve_route(&table, ip(172, 16, 5, 1), &addrs).unwrap();
    assert_eq!(specific.next_hop, ip(10, 0, 0, 7));
    let default = resolve_route(&table, ip(8, 8, 8, 8), &addrs).unwrap();
    assert_eq!((default.interface, default.next_hop), (a, ip(10, 0, 0, 254)));
    assert!(connected_source(&table, ip(8, 8, 8, 8), &addrs).is_none());
    assert!(resolve_route(&table, ip(8, 8, 8, 8), &addrs[1..]).is_none());
}

#[test]
fn removing_a_static_route_needs_its_next_hop() {
    let mut statics = StaticRoutes::new();
    statics.set_static_route(net(172, 16, 0, 0, 16), ip(10, 0, 0, 254));
    statics.remove_static_route(net(172, 16, 0, 0, 16), ip(10, 0, 0, 253));
    assert_eq!(statics.routes().len(), 1);
    statics.remove_static_route(net(172, 16, 0, 0, 16), ip(10, 0, 0, 254));
    assert!(statics.routes().is_empty());
    let table = build_routing_table(&[], &statics, &[], &[]);
    assert!(table.routes().is_empty());
}
