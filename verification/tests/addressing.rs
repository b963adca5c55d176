use rios::{
    AdminState, Device, DeviceError, DeviceId, DeviceType, DhcpLease, DhcpLeases, DhcpPoolConfig,
    DhcpPoolId, DhcpServer, InterfaceId, Ipv4Addr, Ipv4InterfaceConfig, Ipv4Network, LinkState,
    MacAddress, RouteSource, StaticRoutes,
};

fn ip(a: u8, b: u8, c: u8, d: u8) -> Ipv4Addr {
    Ipv4Addr::new(a, b, c, d)
}

fn lease(address: Ipv4Addr, router: Option<Ipv4Addr>) -> DhcpLease {
    DhcpLease {
        dns_servers: Vec::new(),
        domain_name: None,
        renew_at: 0,
        rebind_at: 0,
        address,
        prefix_len: 24,
        default_router: router,
        server_id: ip(192, 168, 1, 1),
        expires_at: 1_000_000,
    }
}

fn up(d: &mut Device, id: InterfaceId) {
    d.set_admin_state(id, AdminState::Up).unwrap();
    d.set_link_state(id, LinkState::Up).unwrap();
}

fn addressed_router() -> (Device, DhcpLeases) {
    let mut r = Device::standalone();
    let mut leases = DhcpLeases::new();
    let lan = Ipv4InterfaceConfig::new(ip(10, 0, 0, 1), 24).unwrap();
    r.set_ipv4(InterfaceId(1), lan).unwrap();
    r.set_dhcp_client(&mut leases, InterfaceId(2)).unwrap();
    up(&mut r, InterfaceId(1));
    up(&mut r, InterfaceId(2));
    (r, leases)
}

#[test]
fn clients_wait_for_a_lease_and_then_use_it() {
    let (r, mut leases) = addressed_router();
    let wan = InterfaceId(2);
    assert_eq!(r.interface_ipv4(&leases, wan), None);
    assert_eq!(r.dhcp_client_interfaces(&leases), vec![wan]);
    assert!(r.has_pending_dhcp_client(&leases));
    leases
        .install_dhcp_lease(wan, true, lease(ip(192, 168, 1, 10), Some(ip(192, 168, 1, 1))))
        .unwrap();
    let address = r.interface_ipv4(&leases, wan).unwrap();
    assert_eq!((address.address(), address.prefix_len()), (ip(192, 168, 1, 10), 24));
    assert!(r.dhcp_client_interfaces(&leases).is_empty());
    assert!(!r.has_pending_dhcp_client(&leases));
    assert_eq!(
        r.interface_ipv4(&leases, InterfaceId(1)).unwrap().address(),
        ip(10, 0, 0, 1)
    );
}

#[test]
fn becoming_a_client_drops_static_address_and_old_lease() {
    let mut r = Device::standalone();
    let mut leases = DhcpLeases::new();
    let lan = Ipv4InterfaceConfig::new(ip(10, 0, 0, 1), 24).unwrap();
    r.set_ipv4(InterfaceId(1), lan).unwrap();
    leases
        .install_dhcp_lease(InterfaceId(1), true, lease(ip(192, 168, 1, 10), None))
        .unwrap();
    r.set_dhcp_client(&mut leases, InterfaceId(1)).unwrap();
    let config = r.interface(InterfaceId(1)).unwrap().1;
    assert_eq!(config.ipv4, None);
    assert!(config.dhcp_client);
    assert!(leases.dhcp_lease(InterfaceId(1)).is_none());
    leases
        .install_dhcp_lease(InterfaceId(1), true, lease(ip(192, 168, 1, 10), None))
        .unwrap();
    r.set_dhcp_client(&mut leases, InterfaceId(1)).unwrap();
    assert!(leases.dhcp_lease(InterfaceId(1)).is_some());

    assert_eq!(
        r.set_dhcp_client(&mut leases, InterfaceId(9)),
        Err(DeviceError::MissingInterface)
    );
    let serial = r.add_physical_interface("se0/0").unwrap();
    assert_eq!(
        r.set_dhcp_client(&mut leases, serial),
        Err(DeviceError::UnsupportedIpv4Interface)
    );
    let mut sw = Device::new(DeviceId(3), "SW", DeviceType::Switch).unwrap();
    let port = sw.add_physical_interface("gi0/1").unwrap();
    assert_eq!(
        sw.set_dhcp_client(&mut leases, port),
        Err(DeviceError::DhcpUnsupported)
    );
}

#[test]
fn only_up_interfaces_own_their_addresses() {
    let (mut r, leases) = addressed_router();
    assert!(r.owns_ipv4(&leases, InterfaceId(1), ip(10, 0, 0, 1)));
    assert!(!r.owns_ipv4(&leases, InterfaceId(1), ip(10, 0, 0, 2)));
    assert!(r.owns_any_ipv4(&leases, ip(10, 0, 0, 1)));
    r.set_admin_state(InterfaceId(1), AdminState::Down).unwrap();
    assert!(!r.owns_any_ipv4(&leases, ip(10, 0, 0, 1)));
}

#[test]
fn the_routing_table_follows_addresses_leases_and_statics() {
    let (r, mut leases) = addressed_router();
    leases
        .install_dhcp_lease(InterfaceId(2), true, lease(ip(192, 168, 1, 10), Some(ip(192, 168, 1, 1))))
        .unwrap();
    let mut statics = StaticRoutes::new();
    let far = Ipv4Network::new(ip(172, 16, 0, 0), 16).unwrap();
    statics.set_static_route(far, ip(10, 0, 0, 254));
    let table = r.routing_table(&leases, &statics, &[]);
    let routes = table.routes();
    assert_eq!(routes.len(), 4);
    assert_eq!(routes[0].source, RouteSource::Connected);
    assert_eq!(routes[0].outgoing_interface, Some(InterfaceId(1)));
    assert_eq!(routes[1].outgoing_interface, Some(InterfaceId(2)));
    assert_eq!(routes[2].prefix, far);
    assert_eq!(routes[3].next_hop, Some(ip(192, 168, 1, 1)));
    let default = table.lookup(ip(8, 8, 8, 8)).unwrap();
    assert_eq!(default.outgoing_interface, Some(InterfaceId(2)));
    assert_eq!(
        table.lookup(ip(172, 16, 5, 5)).unwrap().next_hop,
        Some(ip(10, 0, 0, 254))
    );
}

#[test]
fn offers_answer_from_the_interface_address() {
    let (r, leases) = addressed_router();
    let lan = DhcpPoolConfig {
        lease_seconds: 3600,
        dns_servers: Vec::new(),
        domain_name: None,
        reserved_address: None,
        hardware_address: None,
        name: "LAN".to_string(),
        network: Some(Ipv4Network::new(ip(10, 0, 0, 0), 24).unwrap()),
        default_router: None,
    };
    let pools = vec![(DhcpPoolId(1), lan)];
    let mut server = DhcpServer::new();
    let client = MacAddress([2, 0, 0, 0, 0, 0x33]);
    let offer = r
        .offer_dhcp(&mut server, &pools, &[], &leases, InterfaceId(1), client, 0)
        .unwrap();
    assert_eq!(offer.address, ip(10, 0, 0, 2));
    assert_eq!(offer.server_id, ip(10, 0, 0, 1));
    assert_eq!(
        r.offer_dhcp(&mut server, &pools, &[], &leases, InterfaceId(2), client, 0),
        None
    );
    let relayed = r
        .offer_dhcp_on_network(&mut server, &pools, &[], &leases, InterfaceId(1), MacAddress([2, 0, 0, 0, 0, 0x44]), ip(10, 0, 0, 99), 0)
        .unwrap();
    assert_eq!(relayed.address, ip(10, 0, 0, 3));
}
