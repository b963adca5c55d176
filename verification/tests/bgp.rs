use rios::{
    bgp_collision_winner, bgp_next_deadline, TcpSocket, BgpDefaultOriginate, BgpNeighborConfig, BgpPolicy, BgpRouter, DeviceError,
    InterfaceId, Ipv4Addr, Ipv4Network,
};

fn ip(a: u8, b: u8, c: u8, d: u8) -> Ipv4Addr {
    Ipv4Addr::new(a, b, c, d)
}

fn no_policy() -> BgpPolicy {
    BgpPolicy { prefix_list: None, route_map: None }
}

fn peer(remote_as: u32) -> BgpNeighborConfig {
    BgpNeighborConfig {
        remote_as,
        update_source: None,
        inbound: no_policy(),
        outbound: no_policy(),
        default_originate: None,
        route_reflector_client: false,
        next_hop_self: false,
    }
}

#[test]
fn process_is_kept_for_the_same_as_and_replaced_for_another() {
    let mut bgp = BgpRouter::new();
    assert_eq!(bgp.set_bgp_process(Some(65001), &plain_switch()), Err(DeviceError::InvalidBgpConfig));
    assert_eq!(bgp.set_bgp_process(Some(0), &routing_device()), Err(DeviceError::InvalidBgpConfig));
    assert_eq!(bgp.set_bgp_process(Some(u32::MAX), &routing_device()), Err(DeviceError::InvalidBgpConfig));
    assert!(bgp.config().is_none());
    bgp.set_bgp_process(Some(65001), &routing_device()).unwrap();
    bgp.set_bgp_neighbor(ip(10, 0, 0, 2), Some(peer(65002)), &[]).unwrap();
    bgp.set_bgp_process(Some(65001), &routing_device()).unwrap();
    assert_eq!(bgp.config().unwrap().neighbors.len(), 1);
    bgp.set_bgp_process(Some(65010), &routing_device()).unwrap();
    assert_eq!(bgp.config().unwrap().local_as, 65010);
    assert!(bgp.config().unwrap().neighbors.is_empty());
    bgp.set_bgp_process(None, &routing_device()).unwrap();
    assert!(bgp.config().is_none());
}

#[test]
fn identifiers_must_be_unicast_and_need_a_process() {
    let mut bgp = BgpRouter::new();
    assert_eq!(bgp.set_bgp_router_id(Some(ip(1, 1, 1, 1))), Err(DeviceError::InvalidBgpConfig));
    assert_eq!(bgp.set_bgp_cluster_id(Some(ip(1, 1, 1, 1))), Err(DeviceError::InvalidBgpConfig));
    bgp.set_bgp_process(Some(65001), &routing_device()).unwrap();
    for bad in [ip(0, 0, 0, 0), ip(224, 0, 0, 5), ip(239, 255, 255, 255), ip(255, 255, 255, 255)] {
        assert_eq!(bgp.set_bgp_router_id(Some(bad)), Err(DeviceError::InvalidBgpConfig));
        assert_eq!(bgp.set_bgp_cluster_id(Some(bad)), Err(DeviceError::InvalidBgpConfig));
    }
    bgp.set_bgp_cluster_id(Some(ip(9, 9, 9, 9))).unwrap();
    assert_eq!(bgp.config().unwrap().cluster_id, Some(ip(9, 9, 9, 9)));
    bgp.set_bgp_router_id(Some(ip(1, 1, 1, 1))).unwrap();
    assert_eq!(bgp.config().unwrap().router_id, Some(ip(1, 1, 1, 1)));
}

#[test]
fn router_id_prefers_configuration_then_current_then_loopbacks() {
    let mut bgp = BgpRouter::new();
    let cands = [(ip(10, 0, 0, 1), false), (ip(192, 0, 2, 9), false), (ip(2, 2, 2, 2), true), (ip(3, 3, 3, 3), true)];
    assert_eq!(bgp.refresh(&cands), (Some(ip(3, 3, 3, 3)), true));
    bgp.set_bgp_process(Some(65001), &routing_device()).unwrap();
    assert_eq!(bgp.refresh(&cands), (Some(ip(3, 3, 3, 3)), true));
    assert_eq!(bgp.refresh(&cands), (Some(ip(3, 3, 3, 3)), false));
    assert_eq!(bgp.refresh(&[(ip(200, 0, 0, 1), true)]), (Some(ip(3, 3, 3, 3)), false));
    bgp.set_bgp_router_id(Some(ip(1, 1, 1, 1))).unwrap();
    assert_eq!(bgp.refresh(&cands), (Some(ip(1, 1, 1, 1)), true));
    bgp.set_bgp_router_id(None).unwrap();
    assert_eq!(bgp.router_id(), None);
    let physical = [(ip(10, 0, 0, 1), false), (ip(192, 0, 2, 9), false)];
    assert_eq!(bgp.refresh(&physical), (Some(ip(192, 0, 2, 9)), true));
    let mut fresh = BgpRouter::new();
    fresh.set_bgp_process(Some(65001), &routing_device()).unwrap();
    assert_eq!(fresh.refresh(&[]), (None, true));
    assert_eq!(fresh.refresh(&[]), (None, false));
}

#[test]
fn peers_are_validated_and_bounded() {
    let mut bgp = BgpRouter::new();
    assert_eq!(bgp.set_bgp_neighbor(ip(10, 0, 0, 2), Some(peer(65002)), &[]), Err(DeviceError::InvalidBgpConfig));
    bgp.set_bgp_process(Some(65001), &routing_device()).unwrap();
    assert_eq!(bgp.set_bgp_neighbor(ip(0, 0, 0, 0), Some(peer(65002)), &[]), Err(DeviceError::InvalidBgpConfig));
    assert_eq!(bgp.set_bgp_neighbor(ip(10, 0, 0, 2), Some(peer(0)), &[]), Err(DeviceError::InvalidBgpConfig));
    let mut sourced = peer(65001);
    sourced.update_source = Some(InterfaceId(4));
    assert_eq!(bgp.set_bgp_neighbor(ip(10, 0, 0, 2), Some(sourced.clone()), &[InterfaceId(1)]), Err(DeviceError::InvalidBgpConfig));
    bgp.set_bgp_neighbor(ip(10, 0, 0, 2), Some(sourced), &[InterfaceId(1), InterfaceId(4)]).unwrap();
    let mut named = peer(65002);
    named.inbound.route_map = Some("bad name".to_string());
    assert_eq!(bgp.set_bgp_neighbor(ip(10, 0, 0, 3), Some(named), &[]), Err(DeviceError::InvalidBgpConfig));
    let mut originate = peer(65002);
    originate.default_originate = Some(BgpDefaultOriginate { route_map: Some("no way".to_string()) });
    assert_eq!(bgp.set_bgp_neighbor(ip(10, 0, 0, 3), Some(originate), &[]), Err(DeviceError::InvalidBgpConfig));
    let mut client = peer(65002);
    client.route_reflector_client = true;
    assert_eq!(bgp.set_bgp_neighbor(ip(10, 0, 0, 3), Some(client), &[]), Err(DeviceError::InvalidBgpConfig));
    let mut internal_client = peer(65001);
    internal_client.route_reflector_client = true;
    internal_client.outbound.prefix_list = Some("OUT-v4".to_string());
    bgp.set_bgp_neighbor(ip(10, 0, 0, 3), Some(internal_client), &[]).unwrap();
    assert_eq!(bgp.bgp_transport_ttl(ip(10, 0, 0, 3)), Some(255));
    bgp.set_bgp_neighbor(ip(10, 0, 0, 3), None, &[]).unwrap();
    assert_eq!(bgp.bgp_transport_ttl(ip(10, 0, 0, 3)), None);
    for n in 0..255u8 {
        bgp.set_bgp_neighbor(ip(172, 16, 1, n), Some(peer(65003)), &[]).unwrap();
    }
    assert_eq!(bgp.set_bgp_neighbor(ip(172, 16, 2, 1), Some(peer(65003)), &[]), Err(DeviceError::InvalidBgpConfig));
    bgp.set_bgp_neighbor(ip(172, 16, 1, 0), Some(peer(65004)), &[]).unwrap();
    assert_eq!(bgp.config().unwrap().neighbors.len(), 256);
}

#[test]
fn transport_ttl_depends_on_peer_kind() {
    let mut bgp = BgpRouter::new();
    assert_eq!(bgp.bgp_transport_ttl(ip(10, 0, 0, 2)), None);
    bgp.set_bgp_process(Some(65001), &routing_device()).unwrap();
    bgp.set_bgp_neighbor(ip(10, 0, 0, 2), Some(peer(65001)), &[]).unwrap();
    bgp.set_bgp_neighbor(ip(10, 0, 0, 3), Some(peer(65002)), &[]).unwrap();
    assert_eq!(bgp.bgp_transport_ttl(ip(10, 0, 0, 2)), Some(255));
    assert_eq!(bgp.bgp_transport_ttl(ip(10, 0, 0, 3)), Some(1));
    assert_eq!(bgp.bgp_transport_ttl(ip(10, 0, 0, 4)), None);
}

#[test]
fn originated_networks_form_a_bounded_set() {
    let mut bgp = BgpRouter::new();
    let net = Ipv4Network::new(ip(10, 1, 0, 0), 16).unwrap();
    assert_eq!(bgp.set_bgp_network(net, true), Err(DeviceError::InvalidBgpConfig));
    bgp.set_bgp_process(Some(65001), &routing_device()).unwrap();
    bgp.set_bgp_network(net, true).unwrap();
    bgp.set_bgp_network(net, true).unwrap();
    assert_eq!(bgp.config().unwrap().networks.len(), 1);
    let multicast = Ipv4Network::new(ip(224, 0, 0, 0), 4).unwrap();
    assert_eq!(bgp.set_bgp_network(multicast, true), Err(DeviceError::InvalidBgpConfig));
    bgp.set_bgp_network(net, false).unwrap();
    bgp.set_bgp_network(net, false).unwrap();
    assert!(bgp.config().unwrap().networks.is_empty());
}

#[test]
fn next_deadline_is_the_earliest_future_event_within_a_second() {
    assert_eq!(bgp_next_deadline(5_000_000, &[]), 6_000_000);
    assert_eq!(bgp_next_deadline(5_000_000, &[4_000_000, 5_000_000, 5_400_000, 5_200_000]), 5_200_000);
    assert_eq!(bgp_next_deadline(5_000_000, &[7_000_000]), 6_000_000);
    assert_eq!(bgp_next_deadline(u64::MAX - 10, &[]), u64::MAX);
}

#[test]
fn collisions_keep_the_connection_of_the_higher_router() {
    let ours = TcpSocket {
        local_address: ip(10, 0, 0, 1),
        local_port: 50000,
        remote_address: ip(10, 0, 0, 2),
        remote_port: 179,
    };
    let theirs = TcpSocket {
        local_address: ip(10, 0, 0, 1),
        local_port: 179,
        remote_address: ip(10, 0, 0, 2),
        remote_port: 40000,
    };
    let both = vec![(ours, false), (theirs, false)];
    let high = ip(9, 9, 9, 9);
    let low = ip(1, 1, 1, 1);
    assert_eq!(bgp_collision_winner(&both, high, low, ip(10, 0, 0, 2)), Some(ours));
    assert_eq!(bgp_collision_winner(&both, low, high, ip(10, 0, 0, 2)), Some(theirs));
    assert_eq!(bgp_collision_winner(&both, low, low, ip(10, 0, 0, 2)), Some(theirs));
    assert_eq!(bgp_collision_winner(&both, low, low, ip(10, 0, 0, 0)), Some(ours));
    let established = vec![(ours, false), (theirs, true)];
    assert_eq!(bgp_collision_winner(&established, high, low, ip(10, 0, 0, 2)), Some(theirs));
    assert_eq!(bgp_collision_winner(&Vec::new(), high, low, ip(10, 0, 0, 2)), None);
    let mirrored = TcpSocket {
        local_address: ours.remote_address,
        local_port: ours.remote_port,
        remote_address: ours.local_address,
        remote_port: ours.local_port,
    };
    assert_eq!(
        bgp_collision_winner(&vec![(mirrored, false)], low, high, ip(10, 0, 0, 1)),
        Some(mirrored)
    );
}

fn routing_device() -> rios::Device {
    rios::Device::new(rios::DeviceId(90), "R90", rios::DeviceType::Router).unwrap()
}

fn plain_switch() -> rios::Device {
    rios::Device::new(rios::DeviceId(91), "SW91", rios::DeviceType::Switch).unwrap()
}
