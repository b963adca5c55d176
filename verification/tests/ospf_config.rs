use rios::{
    AdminState, DhcpLeases, Ipv4InterfaceConfig, LinkState, ospf_external_lsas, Device, DeviceError, DeviceId, DeviceType, InterfaceId, Ipv4Addr, Ipv4Network,
    OspfDefaultRoute, OspfNetworkConfig, OspfRedistribute, OspfSettings, Route, RouteSource,
};

fn router() -> (Device, InterfaceId) {
    let mut r = Device::new(DeviceId(1), "R1", DeviceType::Router).unwrap();
    let port = r.add_physical_interface("gi0/0").unwrap();
    (r, port)
}

fn network(a: u8, wildcard: u8, area: u32) -> OspfNetworkConfig {
    OspfNetworkConfig {
        address: Ipv4Addr::new(10, a, 0, 0),
        wildcard: Ipv4Addr::new(0, 0, wildcard, 255),
        area,
    }
}

#[test]
fn the_process_must_exist_on_a_routing_device_before_it_is_configured() {
    let (r, port) = router();
    let switch = Device::new(DeviceId(2), "SW1", DeviceType::Switch).unwrap();
    let mut ospf = OspfSettings::new();
    assert!(ospf.config().is_none());
    assert_eq!(ospf.add_ospf_network(network(1, 0, 0)), Err(DeviceError::InvalidOspfProcess));
    assert_eq!(ospf.set_ospf_router_id(None), Err(DeviceError::InvalidOspfProcess));
    assert_eq!(ospf.set_ospf_passive(&r, port, true), Err(DeviceError::InvalidOspfProcess));
    assert_eq!(ospf.set_ospf_default(None), Err(DeviceError::InvalidOspfProcess));
    assert_eq!(ospf.set_ospf_redistribute_static(None), Err(DeviceError::InvalidOspfProcess));
    assert_eq!(ospf.set_ospf_process(&switch, 1), Err(DeviceError::OspfUnsupported));
    assert_eq!(ospf.set_ospf_process(&r, 0), Err(DeviceError::InvalidOspfProcess));
    assert!(ospf.config().is_none());
    ospf.set_ospf_process(&r, 10).unwrap();
    let config = ospf.config().unwrap();
    assert_eq!(config.process_id(), 10);
    assert!(config.networks().is_empty());
    assert_eq!(config.router_id(), None);
    ospf.add_ospf_network(network(1, 0, 0)).unwrap();
    ospf.set_ospf_process(&r, 20).unwrap();
    let config = ospf.config().unwrap();
    assert_eq!(config.process_id(), 20);
    assert_eq!(config.networks(), &[network(1, 0, 0)]);
}

#[test]
fn network_statements_router_id_and_passive_interfaces_are_validated() {
    let (r, port) = router();
    let mut ospf = OspfSettings::new();
    ospf.set_ospf_process(&r, 1).unwrap();
    ospf.add_ospf_network(network(1, 0, 0)).unwrap();
    ospf.add_ospf_network(network(2, 255, 1)).unwrap();
    ospf.add_ospf_network(network(1, 0, 0)).unwrap();
    assert_eq!(ospf.config().unwrap().networks(), &[network(1, 0, 0), network(2, 255, 1)]);
    for bad in [Ipv4Addr::new(0, 0, 0, 0), Ipv4Addr::new(224, 0, 0, 5), Ipv4Addr::new(239, 1, 1, 1), Ipv4Addr::new(255, 255, 255, 255)] {
        assert_eq!(ospf.set_ospf_router_id(Some(bad)), Err(DeviceError::InvalidOspfConfig));
    }
    ospf.set_ospf_router_id(Some(Ipv4Addr::new(1, 1, 1, 1))).unwrap();
    assert_eq!(ospf.config().unwrap().router_id(), Some(Ipv4Addr::new(1, 1, 1, 1)));
    ospf.set_ospf_router_id(Some(Ipv4Addr::new(240, 0, 0, 1))).unwrap();
    ospf.set_ospf_router_id(None).unwrap();
    assert_eq!(ospf.config().unwrap().router_id(), None);
    assert_eq!(ospf.set_ospf_passive(&r, InterfaceId(9), true), Err(DeviceError::MissingInterface));
    ospf.set_ospf_passive(&r, port, true).unwrap();
    ospf.set_ospf_passive(&r, port, true).unwrap();
    assert_eq!(ospf.config().unwrap().passive_interfaces(), &[port]);
    ospf.set_ospf_passive(&r, port, false).unwrap();
    assert!(ospf.config().unwrap().passive_interfaces().is_empty());
}

#[test]
fn redistribution_policies_feed_the_external_lsas() {
    let (r, _) = router();
    let mut ospf = OspfSettings::new();
    ospf.set_ospf_process(&r, 1).unwrap();
    let too_big = OspfRedistribute { metric: 0x00ff_ffff, type_two: true };
    assert_eq!(ospf.set_ospf_redistribute_static(Some(too_big)), Err(DeviceError::InvalidOspfConfig));
    let heavy = OspfDefaultRoute { metric: 0x0100_0000, type_two: true, always: true };
    assert_eq!(ospf.set_ospf_default(Some(heavy)), Err(DeviceError::InvalidOspfConfig));
    ospf.set_ospf_redistribute_static(Some(OspfRedistribute { metric: 20, type_two: true })).unwrap();
    ospf.set_ospf_default(Some(OspfDefaultRoute { metric: 1, type_two: false, always: true })).unwrap();
    let config = ospf.config().unwrap();
    let routes = vec![Route {
        prefix: Ipv4Network::new(Ipv4Addr::new(172, 16, 0, 0), 12).unwrap(),
        next_hop: Some(Ipv4Addr::new(10, 0, 0, 2)),
        outgoing_interface: None,
        administrative_distance: 1,
        metric: 0,
        source: RouteSource::Static,
    }];
    let lsas = ospf_external_lsas(
        0x0101_0101,
        &routes,
        config.redistribute_static(),
        config.default_information(),
    );
    let ids: Vec<u32> = lsas.iter().map(|(_, l)| l.link_state_id).collect();
    assert_eq!(ids, vec![Ipv4Addr::new(172, 16, 0, 0).0, 0]);
    ospf.set_ospf_redistribute_static(None).unwrap();
    ospf.set_ospf_default(None).unwrap();
    let config = ospf.config().unwrap();
    assert_eq!(config.redistribute_static(), None);
    assert_eq!(config.default_information(), None);
}

#[test]
fn the_most_specific_network_statement_places_up_interfaces_in_areas() {
    let mut r = Device::new(DeviceId(1), "R1", DeviceType::Router).unwrap();
    let a = r.add_physical_interface("gi0/0").unwrap();
    let b = r.add_physical_interface("gi0/1").unwrap();
    let c = r.add_physical_interface("gi0/2").unwrap();
    let d = r.add_physical_interface("gi0/3").unwrap();
    let leases = DhcpLeases::new();
    let address = |x: u8, y: u8| Ipv4InterfaceConfig::new(Ipv4Addr::new(10, x, y, 1), 24).unwrap();
    r.set_ipv4(a, address(1, 1)).unwrap();
    r.set_ipv4(b, address(2, 1)).unwrap();
    r.set_ipv4(c, address(9, 9)).unwrap();
    r.set_ipv4(d, address(1, 2)).unwrap();
    for port in [a, b, c] {
        r.set_admin_state(port, AdminState::Up).unwrap();
        r.set_link_state(port, LinkState::Up).unwrap();
    }
    let mut ospf = OspfSettings::new();
    assert!(ospf.ospf_interfaces(&r, &leases).is_empty());
    ospf.set_ospf_process(&r, 1).unwrap();
    let wide = OspfNetworkConfig {
        address: Ipv4Addr::new(10, 0, 0, 0),
        wildcard: Ipv4Addr::new(0, 255, 255, 255),
        area: 0,
    };
    let narrow = OspfNetworkConfig {
        address: Ipv4Addr::new(10, 2, 0, 0),
        wildcard: Ipv4Addr::new(0, 0, 255, 255),
        area: 7,
    };
    let other = OspfNetworkConfig {
        address: Ipv4Addr::new(192, 168, 0, 0),
        wildcard: Ipv4Addr::new(0, 0, 255, 255),
        area: 3,
    };
    ospf.add_ospf_network(wide).unwrap();
    ospf.add_ospf_network(narrow).unwrap();
    ospf.add_ospf_network(other).unwrap();
    let active: Vec<(InterfaceId, u32, u32)> = ospf
        .ospf_interfaces(&r, &leases)
        .into_iter()
        .map(|(id, ip, area)| (id, ip.address().0, area))
        .collect();
    assert_eq!(
        active,
        vec![
            (a, Ipv4Addr::new(10, 1, 1, 1).0, 0),
            (b, Ipv4Addr::new(10, 2, 1, 1).0, 7),
            (c, Ipv4Addr::new(10, 9, 9, 1).0, 0),
        ]
    );
}
