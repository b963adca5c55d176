use rios::{
    bgp_peer_transport, bgp_reconcile, BgpNeighborConfig, BgpPeerAction, BgpPeers, BgpPolicy, BgpRouter,
    BgpSessionState, Ipv4Addr, TcpSocket,
};

fn ip(a: u8, b: u8, c: u8, d: u8) -> Ipv4Addr {
    Ipv4Addr::new(a, b, c, d)
}

fn peer(remote_as: u32) -> BgpNeighborConfig {
    BgpNeighborConfig {
        remote_as,
        update_source: None,
        inbound: BgpPolicy { prefix_list: None, route_map: None },
        outbound: BgpPolicy { prefix_list: None, route_map: None },
        default_originate: None,
        route_reflector_client: false,
        next_hop_self: false,
    }
}

fn router() -> BgpRouter {
    let mut bgp = BgpRouter::new();
    bgp.set_bgp_process(Some(65001), &routing_device()).unwrap();
    bgp.set_bgp_neighbor(ip(10, 0, 0, 3), Some(peer(65003)), &[]).unwrap();
    bgp.set_bgp_neighbor(ip(10, 0, 0, 2), Some(peer(65002)), &[]).unwrap();
    bgp
}

#[test]
fn configured_peers_start_in_address_order() {
    let mut bgp = router();
    let mut peers = BgpPeers::new();
    let aborts = bgp_reconcile(&mut bgp, &mut peers, &[(ip(1, 1, 1, 1), true)], &[], true, 50);
    // The first round picks a router identifier: every session restarts, and none exist yet.
    assert!(aborts.is_empty());
    let addresses: Vec<u32> = peers.peers.iter().map(|(a, _)| *a).collect();
    assert_eq!(addresses, vec![ip(10, 0, 0, 2).0, ip(10, 0, 0, 3).0]);
    assert_eq!(peers.peers[0].1.remote_as, 65002);
    assert_eq!(peers.peers[0].1.transport.retry_at, 50);
    assert_eq!(bgp.router_id(), Some(ip(1, 1, 1, 1)));
}

#[test]
fn a_removed_peer_goes_and_strangers_are_reset() {
    let mut bgp = router();
    let mut peers = BgpPeers::new();
    bgp_reconcile(&mut bgp, &mut peers, &[(ip(1, 1, 1, 1), true)], &[], true, 0);
    // Give the peer at 10.0.0.3 a connection.
    let mut port: u16 = 0;
    bgp_peer_transport(
        &mut peers.peers[1].1.transport, &[], ip(10, 0, 0, 3), Some(ip(10, 0, 0, 1)), true,
        Some(BgpSessionState::Connect), &mut port, 0,
    );
    let opened = TcpSocket { local_address: ip(10, 0, 0, 1), local_port: 49152, remote_address: ip(10, 0, 0, 3), remote_port: 179 };
    assert_eq!(peers.peers[1].1.transport.streams[0].socket, opened);
    bgp.set_bgp_neighbor(ip(10, 0, 0, 3), None, &[]).unwrap();
    let stranger = TcpSocket { local_address: ip(10, 0, 0, 1), local_port: 179, remote_address: ip(10, 0, 0, 9), remote_port: 40000 };
    let aborts = bgp_reconcile(&mut bgp, &mut peers, &[(ip(1, 1, 1, 1), true)], &[opened, stranger], true, 10);
    assert_eq!(aborts, vec![opened, stranger]);
    assert_eq!(peers.peers.len(), 1);
    let _ = BgpPeerAction::Abort(opened);
}

#[test]
fn a_changed_remote_as_starts_the_peer_over() {
    let mut bgp = router();
    let mut peers = BgpPeers::new();
    bgp_reconcile(&mut bgp, &mut peers, &[(ip(1, 1, 1, 1), true)], &[], true, 0);
    let mut port: u16 = 0;
    bgp_peer_transport(
        &mut peers.peers[0].1.transport, &[], ip(10, 0, 0, 2), Some(ip(10, 0, 0, 1)), true,
        Some(BgpSessionState::Connect), &mut port, 0,
    );
    bgp.set_bgp_neighbor(ip(10, 0, 0, 2), Some(peer(65020)), &[]).unwrap();
    let aborts = bgp_reconcile(&mut bgp, &mut peers, &[(ip(1, 1, 1, 1), true)], &[], true, 99);
    assert_eq!(aborts.len(), 1);
    assert_eq!(peers.peers[0].1.remote_as, 65020);
    assert!(peers.peers[0].1.transport.streams.is_empty());
    assert_eq!(peers.peers[0].1.transport.retry_at, 99);
}

#[test]
fn removing_the_process_resets_everything() {
    let mut bgp = router();
    let mut peers = BgpPeers::new();
    bgp_reconcile(&mut bgp, &mut peers, &[(ip(1, 1, 1, 1), true)], &[], true, 0);
    let mut port: u16 = 0;
    bgp_peer_transport(
        &mut peers.peers[0].1.transport, &[], ip(10, 0, 0, 2), Some(ip(10, 0, 0, 1)), true,
        Some(BgpSessionState::Connect), &mut port, 0,
    );
    bgp.set_bgp_process(None, &routing_device()).unwrap();
    let aborts = bgp_reconcile(&mut bgp, &mut peers, &[], &[], false, 1);
    assert_eq!(aborts.len(), 1);
    assert!(peers.peers.is_empty());
}

fn routing_device() -> rios::Device {
    rios::Device::new(rios::DeviceId(90), "R90", rios::DeviceType::Router).unwrap()
}
