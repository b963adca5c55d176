use rios::{
    bgp_peer_sessions, bgp_peer_step, bgp_peer_transport, BgpAttributes, BgpError, BgpPeerAction, BgpPeerState,
    BgpSessionEvent, BgpSessionState, BgpUpdate, Ipv4Addr, Ipv4Network, TcpSocket, TcpState,
};

const PEER: Ipv4Addr = Ipv4Addr(0x0a00_0002);
const LOCAL: Ipv4Addr = Ipv4Addr(0x0a00_0001);

fn client(port: u16) -> TcpSocket {
    TcpSocket { local_address: LOCAL, local_port: port, remote_address: PEER, remote_port: 179 }
}

fn inbound(port: u16) -> TcpSocket {
    TcpSocket { local_address: LOCAL, local_port: 179, remote_address: PEER, remote_port: port }
}

fn up(session: BgpSessionState, id: Option<Ipv4Addr>) -> BgpSessionEvent {
    BgpSessionEvent { session, peer_router_id: id, close: false, error: None }
}

fn announce(third: u8, path: Vec<u32>) -> BgpUpdate {
    BgpUpdate {
        withdrawn: vec![],
        announced: vec![Ipv4Network::new(Ipv4Addr(0xc0a8_0000 | ((third as u32) << 8)), 24).unwrap()],
        attributes: Some(BgpAttributes {
            as_path: path,
            next_hop: PEER,
            local_preference: None,
            med: None,
            originator_id: None,
            cluster_list: vec![],
        }),
    }
}

#[test]
fn an_idle_peer_opens_from_the_first_dynamic_port() {
    let mut peer = BgpPeerState::new(1_000);
    let mut port: u16 = 0;
    let actions = bgp_peer_transport(&mut peer, &[], PEER, Some(LOCAL), true, Some(BgpSessionState::Connect), &mut port, 1_000);
    assert_eq!(actions, vec![BgpPeerAction::Connect(client(49152))]);
    assert_eq!(port, 49152);
    assert_eq!(peer.state, BgpSessionState::Connect);
    assert_eq!(peer.retry_at, 30_001_000);
    assert_eq!(peer.streams.len(), 1);
    // Before the retry time nothing more is opened.
    let again = bgp_peer_transport(&mut peer, &[(client(49152), TcpState::SynSent)], PEER, Some(LOCAL), true, Some(BgpSessionState::Connect), &mut port, 2_000);
    assert!(again.is_empty());
}

#[test]
fn the_port_search_skips_ports_in_use_and_wraps() {
    let mut peer = BgpPeerState::new(0);
    let mut port: u16 = 65535;
    let used = [(client(49152), TcpState::Established)];
    let actions = bgp_peer_transport(&mut peer, &used, PEER, Some(LOCAL), true, Some(BgpSessionState::Connect), &mut port, 0);
    assert_eq!(actions, vec![BgpPeerAction::Connect(client(49153))]);
    assert_eq!(port, 49153);
}

#[test]
fn without_a_source_address_only_the_timer_restarts() {
    let mut peer = BgpPeerState::new(0);
    let mut port: u16 = 50000;
    let actions = bgp_peer_transport(&mut peer, &[], PEER, None, true, Some(BgpSessionState::Connect), &mut port, 5);
    assert!(actions.is_empty());
    assert_eq!(port, 50000);
    assert_eq!(peer.state, BgpSessionState::Active);
    assert_eq!(peer.retry_at, 30_000_005);
}

#[test]
fn a_third_inbound_connection_is_reset() {
    let mut peer = BgpPeerState::new(100);
    let mut port: u16 = 0;
    let conns = [
        (inbound(40000), TcpState::Established),
        (inbound(40001), TcpState::SynReceived),
        (inbound(40002), TcpState::Established),
    ];
    let actions = bgp_peer_transport(&mut peer, &conns, PEER, Some(LOCAL), true, Some(BgpSessionState::Active), &mut port, 0);
    assert_eq!(
        actions,
        vec![
            BgpPeerAction::Accept(inbound(40000)),
            BgpPeerAction::Accept(inbound(40001)),
            BgpPeerAction::Abort(inbound(40002)),
        ]
    );
    assert_eq!(peer.streams.len(), 2);
    assert_eq!(port, 0);
}

#[test]
fn a_gone_connection_is_dropped_and_the_timer_restarts() {
    let mut peer = BgpPeerState::new(0);
    let mut port: u16 = 0;
    let conns = [(inbound(40000), TcpState::Established)];
    bgp_peer_transport(&mut peer, &conns, PEER, Some(LOCAL), true, Some(BgpSessionState::Active), &mut port, 0);
    assert_eq!(peer.streams.len(), 1);
    let closing = [(inbound(40000), TcpState::TimeWait)];
    let actions = bgp_peer_transport(&mut peer, &closing, PEER, None, true, Some(BgpSessionState::Active), &mut port, 10);
    assert!(actions.is_empty());
    assert!(peer.streams.is_empty());
    assert_eq!(peer.state, BgpSessionState::Active);
    assert_eq!(peer.retry_at, 30_000_010);
}

#[test]
fn routes_come_from_the_selected_session_only_while_it_lasts() {
    let mut peer = BgpPeerState::new(0);
    let mut port: u16 = 0;
    let conns = [(inbound(40000), TcpState::Established)];
    let events = [(inbound(40000), up(BgpSessionState::Established, Some(Ipv4Addr(9))))];
    let updates = [(inbound(40000), announce(1, vec![65002]))];
    bgp_peer_step(
        &mut peer, &conns, PEER, Some(LOCAL), true, Some(BgpSessionState::Active), &mut port, &events, &updates,
        65002, 65001, Ipv4Addr(1), None, 0,
    );
    assert_eq!(peer.selected, Some(inbound(40000)));
    assert_eq!(peer.state, BgpSessionState::Established);
    assert_eq!(peer.received.routes().len(), 1);
    // The session closes: the selection and its routes go.
    let closing = [(inbound(40000), BgpSessionEvent { close: true, ..up(BgpSessionState::Idle, Some(Ipv4Addr(9))) })];
    bgp_peer_sessions(&mut peer, &conns, &closing, &[], PEER, 65002, 65001, Ipv4Addr(1), None, 10);
    assert_eq!(peer.selected, None);
    assert!(peer.received.routes().is_empty());
    assert_eq!(peer.streams[0].closing, Some(5_000_010));
    assert_eq!(peer.state, BgpSessionState::Active);
}

#[test]
fn a_path_not_from_the_peer_fails_the_session() {
    let mut peer = BgpPeerState::new(0);
    let mut port: u16 = 0;
    let conns = [(inbound(40000), TcpState::Established)];
    let events = [(inbound(40000), up(BgpSessionState::Established, Some(Ipv4Addr(9))))];
    let updates = [(inbound(40000), announce(1, vec![65002])), (inbound(40000), announce(2, vec![65003]))];
    bgp_peer_step(
        &mut peer, &conns, PEER, Some(LOCAL), true, Some(BgpSessionState::Active), &mut port, &events, &updates,
        65002, 65001, Ipv4Addr(1), None, 7,
    );
    assert_eq!(peer.last_error, Some(BgpError { code: 3, subcode: 11 }));
    assert_eq!(peer.streams[0].closing, Some(5_000_007));
    assert_eq!(peer.selected, None);
    assert!(peer.received.routes().is_empty());
}

#[test]
fn a_collision_keeps_the_connection_of_the_higher_router_identifier() {
    let mut peer = BgpPeerState::new(0);
    let mut port: u16 = 0;
    // Our own open, then the peer's inbound connection.
    bgp_peer_transport(&mut peer, &[], PEER, Some(LOCAL), true, Some(BgpSessionState::Connect), &mut port, 0);
    let conns = [(client(49152), TcpState::Established), (inbound(40000), TcpState::Established)];
    let events = [
        (client(49152), up(BgpSessionState::OpenConfirm, Some(Ipv4Addr(9)))),
        (inbound(40000), up(BgpSessionState::OpenConfirm, Some(Ipv4Addr(9)))),
    ];
    bgp_peer_step(
        &mut peer, &conns, PEER, Some(LOCAL), true, Some(BgpSessionState::Active), &mut port, &events, &[],
        65002, 65001, Ipv4Addr(20), None, 0,
    );
    assert_eq!(peer.streams.len(), 2);
    // Router identifier 20 is above the peer's 9: our own connection survives.
    let ours = peer.streams.iter().find(|s| s.socket == client(49152)).unwrap();
    let theirs = peer.streams.iter().find(|s| s.socket == inbound(40000)).unwrap();
    assert_eq!(ours.closing, None);
    assert_eq!(theirs.error, Some(BgpError { code: 6, subcode: 7 }));
    assert_eq!(theirs.closing, Some(5_000_000));
}
