use rios::{Ipv4Addr, UdpDelivery, UdpError, UdpRuntime, UdpSocket};

fn local() -> Ipv4Addr {
    Ipv4Addr::new(10, 0, 0, 1)
}

fn peer() -> Ipv4Addr {
    Ipv4Addr::new(10, 0, 0, 9)
}

fn endpoint(port: u16) -> UdpSocket {
    UdpSocket { local_address: local(), local_port: port, remote_address: peer(), remote_port: 53 }
}

#[test]
fn endpoints_validate_addresses_and_ports() {
    let mut rt = UdpRuntime::new();
    assert_eq!(rt.udp_open(endpoint(5000), false, &[]), Err(UdpError::Endpoint));
    assert_eq!(rt.udp_open(endpoint(0), true, &[]), Err(UdpError::Endpoint));
    assert_eq!(rt.udp_open(endpoint(67), true, &[]), Err(UdpError::Endpoint));
    assert_eq!(rt.udp_open(endpoint(68), true, &[]), Err(UdpError::Endpoint));
    assert_eq!(rt.udp_open(endpoint(69), true, &[69]), Err(UdpError::Endpoint));
    let mut multicast = endpoint(5000);
    multicast.remote_address = Ipv4Addr::new(239, 1, 1, 1);
    assert_eq!(rt.udp_open(multicast, true, &[]), Err(UdpError::Endpoint));
    let mut broadcast = endpoint(5000);
    broadcast.remote_address = Ipv4Addr::new(255, 255, 255, 255);
    assert_eq!(rt.udp_open(broadcast, true, &[]), Err(UdpError::Endpoint));
    let mut zero_remote = endpoint(5000);
    zero_remote.remote_port = 0;
    assert_eq!(rt.udp_open(zero_remote, true, &[]), Err(UdpError::Endpoint));

    assert_eq!(rt.udp_open(endpoint(5000), true, &[69]), Ok(()));
    assert_eq!(rt.udp_open(endpoint(5000), true, &[]), Err(UdpError::Exists));
    assert_eq!(rt.udp_read(endpoint(5001)), Err(UdpError::Missing));
}

#[test]
fn endpoint_capacity_is_bounded() {
    let mut rt = UdpRuntime::new();
    for port in 1000..1064u16 {
        assert_eq!(rt.udp_open(endpoint(port), true, &[]), Ok(()));
    }
    assert_eq!(rt.udp_open(endpoint(2000), true, &[]), Err(UdpError::Capacity));
    rt.udp_close(endpoint(1000));
    assert_eq!(rt.udp_open(endpoint(2000), true, &[]), Ok(()));
}

#[test]
fn datagrams_queue_in_order_up_to_four() {
    let mut rt = UdpRuntime::new();
    rt.udp_open(endpoint(5000), true, &[]).unwrap();
    for n in 0..6u8 {
        assert_eq!(rt.receive_udp(peer(), 53, local(), 5000, vec![n], true), UdpDelivery::Endpoint);
    }
    assert_eq!(rt.udp_sockets(), vec![(endpoint(5000), 4)]);
    for n in 0..4u8 {
        assert_eq!(rt.udp_read(endpoint(5000)), Ok(Some(vec![n])));
    }
    assert_eq!(rt.udp_read(endpoint(5000)), Ok(None));
}

#[test]
fn datagrams_from_other_peers_go_to_services() {
    let mut rt = UdpRuntime::new();
    rt.udp_open(endpoint(5000), true, &[]).unwrap();
    assert_eq!(rt.receive_udp(peer(), 54, local(), 5000, vec![1], true), UdpDelivery::Service);
    assert_eq!(rt.receive_udp(peer(), 53, local(), 5000, vec![1], false), UdpDelivery::NotLocal);
    assert_eq!(rt.udp_sockets(), vec![(endpoint(5000), 0)]);
}

#[test]
fn closing_discards_queued_datagrams_and_lists_in_order() {
    let mut rt = UdpRuntime::new();
    rt.udp_open(endpoint(7000), true, &[]).unwrap();
    rt.udp_open(endpoint(6000), true, &[]).unwrap();
    rt.receive_udp(peer(), 53, local(), 7000, b"x".to_vec(), true);
    assert_eq!(rt.udp_sockets(), vec![(endpoint(6000), 0), (endpoint(7000), 1)]);
    rt.udp_close(endpoint(7000));
    rt.udp_close(endpoint(7000));
    assert_eq!(rt.udp_sockets(), vec![(endpoint(6000), 0)]);
    assert_eq!(rt.udp_read(endpoint(7000)), Err(UdpError::Missing));
}
