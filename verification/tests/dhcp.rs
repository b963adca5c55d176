use rios::{
    choose_dhcp_address, select_dhcp_pool, DeviceError, DhcpConfig, DhcpLease, DhcpLeases,
    DhcpPoolConfig, DhcpPoolId, DhcpServer, InterfaceId, Ipv4Addr, Ipv4Network, MacAddress,
};

fn ip(a: u8, b: u8, c: u8, d: u8) -> Ipv4Addr {
    Ipv4Addr::new(a, b, c, d)
}

fn net(a: u8, b: u8, c: u8, d: u8, len: u8) -> Ipv4Network {
    Ipv4Network::new(ip(a, b, c, d), len).unwrap()
}

#[test]
fn lowest_free_address_skips_taken_router_and_excluded() {
    let lan = net(10, 0, 0, 0, 24);
    assert_eq!(choose_dhcp_address(lan, &[], None, &[], None, None), Some(ip(10, 0, 0, 1)));
    assert_eq!(choose_dhcp_address(lan, &[ip(10, 0, 0, 1)], None, &[], None, None), Some(ip(10, 0, 0, 2)));
    assert_eq!(
        choose_dhcp_address(lan, &[ip(10, 0, 0, 2)], Some(ip(10, 0, 0, 1)), &[], None, None),
        Some(ip(10, 0, 0, 3))
    );
    let excluded = [(ip(10, 0, 0, 1), ip(10, 0, 0, 10)), (ip(10, 0, 0, 5), ip(10, 0, 0, 20))];
    assert_eq!(choose_dhcp_address(lan, &[], None, &excluded, None, None), Some(ip(10, 0, 0, 21)));
}

#[test]
fn reservations_and_previous_addresses_take_precedence() {
    let lan = net(10, 0, 0, 0, 24);
    assert_eq!(choose_dhcp_address(lan, &[], None, &[], Some(ip(10, 0, 0, 50)), None), Some(ip(10, 0, 0, 50)));
    assert_eq!(choose_dhcp_address(lan, &[ip(10, 0, 0, 50)], None, &[], Some(ip(10, 0, 0, 50)), None), None);
    assert_eq!(choose_dhcp_address(lan, &[], None, &[], Some(ip(10, 0, 1, 50)), None), None);
    assert_eq!(choose_dhcp_address(lan, &[], None, &[], None, Some(ip(10, 0, 0, 77))), Some(ip(10, 0, 0, 77)));
    let excluded = [(ip(10, 0, 0, 70), ip(10, 0, 0, 80))];
    assert_eq!(choose_dhcp_address(lan, &[], None, &excluded, None, Some(ip(10, 0, 0, 77))), Some(ip(10, 0, 0, 1)));
    assert_eq!(choose_dhcp_address(lan, &[], None, &[], None, Some(ip(10, 0, 0, 255))), Some(ip(10, 0, 0, 1)));
}

#[test]
fn small_and_exhausted_networks_offer_nothing() {
    assert_eq!(choose_dhcp_address(net(10, 0, 0, 0, 31), &[], None, &[], None, None), None);
    assert_eq!(choose_dhcp_address(net(10, 0, 0, 1, 32), &[], None, &[], None, None), None);
    let p2p = net(10, 0, 0, 0, 30);
    assert_eq!(choose_dhcp_address(p2p, &[ip(10, 0, 0, 1)], None, &[], None, None), Some(ip(10, 0, 0, 2)));
    assert_eq!(choose_dhcp_address(p2p, &[ip(10, 0, 0, 1), ip(10, 0, 0, 2)], None, &[], None, None), None);
    let top = net(255, 255, 255, 0, 24);
    let tail = [(ip(255, 255, 255, 1), ip(255, 255, 255, 255))];
    assert_eq!(choose_dhcp_address(top, &[], None, &tail, None, None), None);
    assert_eq!(choose_dhcp_address(net(255, 255, 255, 255, 32), &[], None, &[], None, None), None);
    assert_eq!(choose_dhcp_address(net(0, 0, 0, 0, 32), &[], None, &[], None, None), None);
}

fn pool(name: &str, network: Option<Ipv4Network>) -> DhcpPoolConfig {
    DhcpPoolConfig {
        lease_seconds: 3600,
        dns_servers: Vec::new(),
        domain_name: None,
        reserved_address: None,
        hardware_address: None,
        name: name.to_string(),
        network,
        default_router: None,
    }
}

fn mac(last: u8) -> MacAddress {
    MacAddress([0x02, 0, 0, 0, 0, last])
}

#[test]
fn pools_with_reservations_come_first_then_lower_ids() {
    let mut reserved = pool("PRINTER", Some(net(10, 0, 0, 0, 24)));
    reserved.hardware_address = Some(mac(0xa));
    reserved.reserved_address = Some(ip(10, 0, 0, 50));
    let mut pinned = pool("PINNED", Some(net(10, 0, 0, 0, 24)));
    pinned.hardware_address = Some(mac(0xb));
    let pools = vec![
        (DhcpPoolId(1), pool("LAN", Some(net(10, 0, 0, 0, 24)))),
        (DhcpPoolId(2), reserved),
        (DhcpPoolId(3), pool("CAMPUS", Some(net(10, 1, 0, 0, 16)))),
        (DhcpPoolId(4), pinned),
        (DhcpPoolId(5), pool("EMPTY", None)),
    ];
    assert_eq!(select_dhcp_pool(&pools, ip(10, 0, 0, 1), mac(0xa)), Some(1));
    assert_eq!(select_dhcp_pool(&pools, ip(10, 0, 0, 1), mac(0xb)), Some(0));
    assert_eq!(select_dhcp_pool(&pools, ip(10, 1, 2, 3), mac(0xc)), Some(2));
    assert_eq!(select_dhcp_pool(&pools, ip(10, 2, 0, 1), mac(0xc)), None);
}

#[test]
fn offers_commit_decline_and_expire() {
    let mut lan = pool("LAN", Some(net(10, 0, 0, 0, 24)));
    lan.default_router = Some(ip(10, 0, 0, 1));
    let pools = vec![(DhcpPoolId(1), lan)];
    let device = [ip(10, 0, 0, 1)];
    let server = ip(10, 0, 0, 1);
    let subnet = ip(10, 0, 0, 1);
    let mut dhcp = DhcpServer::new();

    let a = dhcp.offer_dhcp_on_network(&pools, &[], &device, server, mac(1), subnet, 0).unwrap();
    assert_eq!(a.address, ip(10, 0, 0, 2));
    assert_eq!((a.prefix_len, a.default_router, a.server_id), (24, Some(ip(10, 0, 0, 1)), server));
    assert_eq!((a.lease_time_seconds, a.pool, a.expires_at), (3600, DhcpPoolId(1), 60_000_000));
    let b = dhcp.offer_dhcp_on_network(&pools, &[], &device, server, mac(2), subnet, 0).unwrap();
    assert_eq!(b.address, ip(10, 0, 0, 3));
    assert_eq!(dhcp.offer_dhcp_on_network(&pools, &[], &device, server, mac(1), subnet, 5), Some(a));

    assert_eq!(dhcp.commit_dhcp(&pools, mac(1), ip(10, 0, 0, 9), server, 10), None);
    let lease = dhcp.commit_dhcp(&pools, mac(1), ip(10, 0, 0, 2), server, 10).unwrap();
    assert_eq!(lease.address, ip(10, 0, 0, 2));
    assert_eq!(lease.expires_at, 10 + 3_600_000_000);
    assert_eq!(dhcp.bindings().len(), 1);
    assert_eq!(dhcp.bindings()[0].1.pool_name, "LAN".to_string());
    assert_eq!(dhcp.offers().len(), 1);

    dhcp.decline_dhcp(mac(2), ip(10, 0, 0, 3), 20);
    assert_eq!(dhcp.offers().len(), 0);
    assert_eq!(dhcp.conflicts(), &[(ip(10, 0, 0, 3), 600_000_020)]);
    let c = dhcp.offer_dhcp_on_network(&pools, &[], &device, server, mac(3), subnet, 30).unwrap();
    assert_eq!(c.address, ip(10, 0, 0, 4));

    let again = dhcp.offer_dhcp_on_network(&pools, &[], &device, server, mac(1), subnet, 40).unwrap();
    assert_eq!(again.address, ip(10, 0, 0, 2));

    let d = dhcp.offer_dhcp_on_network(&pools, &[], &device, server, mac(4), subnet, 600_000_021).unwrap();
    assert_eq!(d.address, ip(10, 0, 0, 3));
}

#[test]
fn declines_must_match_the_client_and_address() {
    let pools = vec![(DhcpPoolId(1), pool("LAN", Some(net(10, 0, 0, 0, 24))))];
    let mut dhcp = DhcpServer::new();
    let offer = dhcp.offer_dhcp_on_network(&pools, &[], &[], ip(10, 0, 0, 254), mac(1), ip(10, 0, 0, 254), 0).unwrap();
    assert_eq!(offer.address, ip(10, 0, 0, 1));
    dhcp.decline_dhcp(mac(2), ip(10, 0, 0, 1), 0);
    dhcp.decline_dhcp(mac(1), ip(10, 0, 0, 2), 0);
    assert_eq!(dhcp.offers().len(), 1);
    assert!(dhcp.conflicts().is_empty());
    assert_eq!(dhcp.offer_dhcp_on_network(&pools, &[], &[], ip(10, 0, 0, 254), mac(1), ip(10, 9, 0, 1), 0), None);
}

#[test]
fn pools_are_created_once_per_name_ignoring_case() {
    let mut config = DhcpConfig::new();
    assert_eq!(config.ensure_dhcp_pool("LAN", &plain_switch()), Err(DeviceError::DhcpUnsupported));
    assert_eq!(config.ensure_dhcp_pool("", &routing_device()), Err(DeviceError::InvalidDhcpPoolName));
    assert_eq!(config.ensure_dhcp_pool("bad name", &routing_device()), Err(DeviceError::InvalidDhcpPoolName));
    assert_eq!(config.ensure_dhcp_pool(&"x".repeat(33), &routing_device()), Err(DeviceError::InvalidDhcpPoolName));
    assert_eq!(config.ensure_dhcp_pool("LAN", &routing_device()), Ok(DhcpPoolId(1)));
    assert_eq!(config.ensure_dhcp_pool("lan", &routing_device()), Ok(DhcpPoolId(1)));
    assert_eq!(config.ensure_dhcp_pool("WiFi", &routing_device()), Ok(DhcpPoolId(2)));
    assert_eq!(config.pools().len(), 2);
    let created = &config.pools()[1].1;
    assert_eq!((created.lease_seconds, created.name.as_str()), (3600, "WiFi"));
    assert_eq!((created.network, created.default_router), (None, None));
}

#[test]
fn pool_edits_are_validated_and_withdraw_offers() {
    let mut config = DhcpConfig::new();
    let mut server = DhcpServer::new();
    let id = config.ensure_dhcp_pool("LAN", &routing_device()).unwrap();
    assert_eq!(config.set_dhcp_pool_network(&mut server, id, net(10, 0, 0, 0, 31)), Err(DeviceError::InvalidDhcpNetwork));
    assert_eq!(config.set_dhcp_pool_network(&mut server, DhcpPoolId(9), net(10, 0, 0, 0, 24)), Err(DeviceError::MissingDhcpPool));
    assert_eq!(config.set_dhcp_pool_network(&mut server, id, net(10, 0, 0, 0, 24)), Ok(()));
    assert_eq!(config.set_dhcp_default_router(&mut server, id, ip(127, 0, 0, 1)), Err(DeviceError::InvalidDhcpNetwork));
    assert_eq!(config.set_dhcp_default_router(&mut server, id, ip(10, 0, 0, 1)), Ok(()));
    assert_eq!(config.pools()[0].1.network, Some(net(10, 0, 0, 0, 24)));
    assert_eq!(config.pools()[0].1.default_router, Some(ip(10, 0, 0, 1)));

    let offer = server
        .offer_dhcp_on_network(config.pools(), config.excluded(), &[ip(10, 0, 0, 1)], ip(10, 0, 0, 1), mac(1), ip(10, 0, 0, 1), 0)
        .unwrap();
    assert_eq!(offer.address, ip(10, 0, 0, 2));

    let base = config.pools()[0].1.clone();
    let mut renamed = base.clone();
    renamed.name = "OTHER".to_string();
    assert_eq!(config.update_dhcp_pool(&mut server, id, renamed), Err(DeviceError::InvalidDhcpNetwork));
    let mut short = base.clone();
    short.lease_seconds = 59;
    assert_eq!(config.update_dhcp_pool(&mut server, id, short), Err(DeviceError::InvalidDhcpNetwork));
    let mut odd = base.clone();
    odd.lease_seconds = 90;
    assert_eq!(config.update_dhcp_pool(&mut server, id, odd), Err(DeviceError::InvalidDhcpNetwork));
    let mut outside = base.clone();
    outside.reserved_address = Some(ip(10, 0, 1, 5));
    assert_eq!(config.update_dhcp_pool(&mut server, id, outside), Err(DeviceError::InvalidDhcpNetwork));
    let mut multicast = base.clone();
    multicast.hardware_address = Some(MacAddress([1, 0, 0, 0, 0, 1]));
    assert_eq!(config.update_dhcp_pool(&mut server, id, multicast), Err(DeviceError::InvalidDhcpNetwork));
    let mut bad_domain = base.clone();
    bad_domain.domain_name = Some("lab_net".to_string());
    assert_eq!(config.update_dhcp_pool(&mut server, id, bad_domain), Err(DeviceError::InvalidDhcpNetwork));
    let mut many_dns = base.clone();
    many_dns.dns_servers = vec![ip(8, 8, 8, 8); 9];
    assert_eq!(config.update_dhcp_pool(&mut server, id, many_dns), Err(DeviceError::InvalidDhcpNetwork));
    assert_eq!(server.offers().len(), 1);

    let mut good = base.clone();
    good.lease_seconds = 7200;
    good.domain_name = Some("lab.example".to_string());
    good.dns_servers = vec![ip(10, 0, 0, 53)];
    good.reserved_address = Some(ip(10, 0, 0, 50));
    good.hardware_address = Some(mac(7));
    assert_eq!(config.update_dhcp_pool(&mut server, id, good), Ok(()));
    assert_eq!(config.pools()[0].1.lease_seconds, 7200);
    assert!(server.offers().is_empty());
}

#[test]
fn exclusions_are_validated_and_withdraw_offers_in_range() {
    let mut config = DhcpConfig::new();
    let mut server = DhcpServer::new();
    let id = config.ensure_dhcp_pool("LAN", &routing_device()).unwrap();
    config.set_dhcp_pool_network(&mut server, id, net(10, 0, 0, 0, 24)).unwrap();
    server.offer_dhcp_on_network(config.pools(), config.excluded(), &[], ip(10, 0, 0, 254), mac(1), ip(10, 0, 0, 254), 0).unwrap();
    server.offer_dhcp_on_network(config.pools(), config.excluded(), &[], ip(10, 0, 0, 254), mac(2), ip(10, 0, 0, 254), 0).unwrap();
    assert_eq!(config.exclude_dhcp_addresses(&mut server, ip(10, 0, 0, 1), ip(10, 0, 0, 1), &plain_switch()), Err(DeviceError::DhcpUnsupported));
    assert_eq!(config.exclude_dhcp_addresses(&mut server, ip(10, 0, 0, 9), ip(10, 0, 0, 1), &routing_device()), Err(DeviceError::InvalidDhcpNetwork));
    assert_eq!(config.exclude_dhcp_addresses(&mut server, ip(0, 0, 0, 1), ip(10, 0, 0, 1), &routing_device()), Err(DeviceError::InvalidDhcpNetwork));
    assert_eq!(config.exclude_dhcp_addresses(&mut server, ip(10, 0, 0, 2), ip(10, 0, 0, 10), &routing_device()), Ok(()));
    assert_eq!(config.excluded(), &[(ip(10, 0, 0, 2), ip(10, 0, 0, 10))]);
    assert_eq!(server.offers().len(), 1);
    assert_eq!(server.offers()[0].1.address, ip(10, 0, 0, 1));
    assert_eq!(config.exclude_dhcp_addresses(&mut server, ip(10, 0, 0, 2), ip(10, 0, 0, 20), &routing_device()), Ok(()));
    assert_eq!(config.excluded(), &[(ip(10, 0, 0, 2), ip(10, 0, 0, 20))]);
    let c = server.offer_dhcp_on_network(config.pools(), config.excluded(), &[], ip(10, 0, 0, 254), mac(3), ip(10, 0, 0, 254), 0).unwrap();
    assert_eq!(c.address, ip(10, 0, 0, 21));
}

fn lease(address: Ipv4Addr, expires_at: u64) -> DhcpLease {
    DhcpLease {
        dns_servers: vec![ip(10, 0, 0, 53)],
        domain_name: None,
        renew_at: expires_at / 2,
        rebind_at: expires_at / 8 * 7,
        address,
        prefix_len: 24,
        default_router: Some(ip(10, 0, 0, 1)),
        server_id: ip(10, 0, 0, 1),
        expires_at,
    }
}

#[test]
fn client_leases_install_and_expire_per_interface() {
    let mut leases = DhcpLeases::new();
    let gi0 = InterfaceId(1);
    assert_eq!(leases.install_dhcp_lease(gi0, false, lease(ip(10, 0, 0, 7), 100)), Err(DeviceError::DhcpUnsupported));
    assert!(leases.dhcp_lease(gi0).is_none());
    assert_eq!(leases.install_dhcp_lease(gi0, true, lease(ip(10, 0, 0, 7), 100)), Ok(()));
    assert_eq!(leases.install_dhcp_lease(gi0, true, lease(ip(10, 0, 0, 8), 200)), Ok(()));
    assert_eq!(leases.dhcp_lease(gi0).map(|l| l.address), Some(ip(10, 0, 0, 8)));
    assert!(!leases.expire_dhcp_lease(gi0, ip(10, 0, 0, 7), 500));
    assert!(!leases.expire_dhcp_lease(gi0, ip(10, 0, 0, 8), 199));
    assert!(!leases.expire_dhcp_lease(InterfaceId(2), ip(10, 0, 0, 8), 500));
    assert!(leases.expire_dhcp_lease(gi0, ip(10, 0, 0, 8), 200));
    assert!(leases.dhcp_lease(gi0).is_none());
}

fn routing_device() -> rios::Device {
    rios::Device::new(rios::DeviceId(90), "R90", rios::DeviceType::Router).unwrap()
}

fn plain_switch() -> rios::Device {
    rios::Device::new(rios::DeviceId(91), "SW91", rios::DeviceType::Switch).unwrap()
}
