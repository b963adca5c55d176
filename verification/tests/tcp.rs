use rios::tcp::{ACK, FIN, PSH, RST, SYN};
use rios::{Ipv4Addr, TcpError, TcpRuntime, TcpSegment, TcpSocket, TcpState};

fn server() -> Ipv4Addr {
    Ipv4Addr::new(10, 0, 0, 1)
}

fn client() -> Ipv4Addr {
    Ipv4Addr::new(10, 0, 0, 2)
}

fn segment(source_port: u16, destination_port: u16, sequence: u32, acknowledgment: u32, flags: u8, payload: &[u8]) -> TcpSegment {
    TcpSegment {
        source_port,
        destination_port,
        sequence,
        acknowledgment,
        flags,
        window: 65535,
        options: Vec::new(),
        payload: payload.to_vec(),
    }
}

fn server_socket() -> TcpSocket {
    TcpSocket { local_address: server(), local_port: 80, remote_address: client(), remote_port: 4000 }
}

fn client_socket() -> TcpSocket {
    TcpSocket { local_address: client(), local_port: 4000, remote_address: server(), remote_port: 80 }
}

fn state(runtime: &TcpRuntime, socket: TcpSocket) -> Option<TcpState> {
    runtime.connection(socket).map(|c| c.state)
}

#[test]
fn passive_open_data_and_remote_close() {
    let mut rt = TcpRuntime::new();
    assert_eq!(rt.tcp_listen(80), Ok(()));
    let syn = segment(4000, 80, 100, 0, SYN, b"");
    let reply = rt.receive_tcp(client(), server(), syn, true, 0).unwrap();
    assert_eq!(reply.flags, SYN | ACK);
    assert_eq!(reply.sequence, 64000);
    assert_eq!(reply.acknowledgment, 101);
    assert_eq!((reply.source_port, reply.destination_port), (80, 4000));
    assert_eq!(reply.window, 65535);
    assert_eq!(state(&rt, server_socket()), Some(TcpState::SynReceived));

    let ack = segment(4000, 80, 101, 64001, ACK, b"");
    assert_eq!(rt.receive_tcp(client(), server(), ack, true, 10), None);
    assert_eq!(state(&rt, server_socket()), Some(TcpState::Established));

    let data = segment(4000, 80, 101, 64001, ACK | PSH, b"hello");
    let reply = rt.receive_tcp(client(), server(), data, true, 20).unwrap();
    assert_eq!(reply.flags, ACK);
    assert_eq!(reply.acknowledgment, 106);
    assert_eq!(reply.window, 65530);

    let (bytes, update) = rt.tcp_read(server_socket()).unwrap();
    assert_eq!(bytes, b"hello".to_vec());
    assert_eq!(update.window, 65535);
    assert_eq!(update.acknowledgment, 106);
    let (again, _) = rt.tcp_read(server_socket()).unwrap();
    assert!(again.is_empty());

    let fin = segment(4000, 80, 106, 64001, ACK | FIN, b"");
    let reply = rt.receive_tcp(client(), server(), fin, true, 30).unwrap();
    assert_eq!(reply.acknowledgment, 107);
    assert_eq!(state(&rt, server_socket()), Some(TcpState::CloseWait));

    let our_fin = rt.tcp_close(server_socket(), 40).unwrap();
    assert_eq!(our_fin.flags, ACK | FIN);
    assert_eq!(our_fin.sequence, 64001);
    assert_eq!(state(&rt, server_socket()), Some(TcpState::LastAck));

    let last = segment(4000, 80, 107, 64002, ACK, b"");
    assert_eq!(rt.receive_tcp(client(), server(), last, true, 50), None);
    assert_eq!(state(&rt, server_socket()), Some(TcpState::Closed));
    assert!(rt.tcp_tick(60).is_empty());
    assert_eq!(rt.connection(server_socket()).map(|c| c.state), None);
    assert!(rt.tcp_connections().is_empty());
}

#[test]
fn active_open_sends_one_segment_at_a_time() {
    let mut rt = TcpRuntime::new();
    let syn = rt.tcp_connect(client_socket(), true, 0).unwrap();
    assert_eq!(syn.flags, SYN);
    assert_eq!(syn.sequence, 64000);
    assert_eq!(state(&rt, client_socket()), Some(TcpState::SynSent));
    assert_eq!(rt.tcp_send(client_socket(), b"early", 1), Err(TcpError::State));

    let syn_ack = segment(80, 4000, 900, 64001, SYN | ACK, b"");
    let ack = rt.receive_tcp(server(), client(), syn_ack, true, 5).unwrap();
    assert_eq!(ack.flags, ACK);
    assert_eq!((ack.sequence, ack.acknowledgment), (64001, 901));
    assert_eq!(state(&rt, client_socket()), Some(TcpState::Established));

    let sent = rt.tcp_send(client_socket(), b"abc", 10).unwrap();
    assert_eq!(sent.flags, ACK | PSH);
    assert_eq!(sent.sequence, 64001);
    assert_eq!(sent.payload, b"abc".to_vec());
    assert_eq!(rt.tcp_send(client_socket(), b"def", 11), Err(TcpError::Busy));
    assert_eq!(rt.tcp_close(client_socket(), 12), Err(TcpError::Busy));

    let acked = segment(80, 4000, 901, 64004, ACK, b"");
    assert_eq!(rt.receive_tcp(server(), client(), acked, true, 20), None);
    let next = rt.tcp_send(client_socket(), b"def", 21).unwrap();
    assert_eq!(next.sequence, 64004);
}

#[test]
fn application_errors() {
    let mut rt = TcpRuntime::new();
    let mut zero_port = client_socket();
    zero_port.local_port = 0;
    assert_eq!(rt.tcp_connect(zero_port, true, 0), Err(TcpError::Endpoint));
    assert_eq!(rt.tcp_connect(client_socket(), false, 0), Err(TcpError::Endpoint));
    let mut multicast = client_socket();
    multicast.remote_address = Ipv4Addr::new(224, 0, 0, 5);
    assert_eq!(rt.tcp_connect(multicast, true, 0), Err(TcpError::Endpoint));
    let mut broadcast = client_socket();
    broadcast.remote_address = Ipv4Addr::new(255, 255, 255, 255);
    assert_eq!(rt.tcp_connect(broadcast, true, 0), Err(TcpError::Endpoint));
    let mut unspecified = client_socket();
    unspecified.remote_address = Ipv4Addr::new(0, 0, 0, 0);
    assert_eq!(rt.tcp_connect(unspecified, true, 0), Err(TcpError::Endpoint));

    assert!(rt.tcp_connect(client_socket(), true, 0).is_ok());
    assert_eq!(rt.tcp_connect(client_socket(), true, 0), Err(TcpError::State));

    assert_eq!(rt.tcp_send(client_socket(), b"", 0), Err(TcpError::Capacity));
    assert_eq!(rt.tcp_send(client_socket(), &[0u8; 1201], 0), Err(TcpError::Capacity));
    assert_eq!(rt.tcp_send(server_socket(), b"x", 0), Err(TcpError::Missing));
    assert_eq!(rt.tcp_close(server_socket(), 0), Err(TcpError::Missing));
    assert_eq!(rt.tcp_read(server_socket()).map(|(bytes, _)| bytes), Err(TcpError::Missing));
    assert_eq!(rt.tcp_close(client_socket(), 0), Err(TcpError::Busy));

    assert_eq!(rt.tcp_listen(0), Err(TcpError::Endpoint));
    assert_eq!(rt.tcp_listen(22), Ok(()));
    assert_eq!(rt.tcp_listen(22), Ok(()));
}

#[test]
fn listener_capacity_is_bounded() {
    let mut rt = TcpRuntime::new();
    for port in 1..=1024u16 {
        assert_eq!(rt.tcp_listen(port), Ok(()));
    }
    assert_eq!(rt.tcp_listen(1025), Err(TcpError::Capacity));
    assert_eq!(rt.tcp_listen(7), Ok(()));
}

#[test]
fn unknown_segments_are_reset() {
    let mut rt = TcpRuntime::new();
    let stray_ack = segment(4000, 80, 5, 777, ACK, b"");
    let reset = rt.receive_tcp(client(), server(), stray_ack, true, 0).unwrap();
    assert_eq!(reset.flags, RST);
    assert_eq!(reset.sequence, 777);

    let stray_syn = segment(4000, 81, 5, 0, SYN, b"ab");
    let reset = rt.receive_tcp(client(), server(), stray_syn, true, 0).unwrap();
    assert_eq!(reset.flags, RST | ACK);
    assert_eq!(reset.sequence, 0);
    assert_eq!(reset.acknowledgment, 8);

    let stray_reset = segment(4000, 80, 5, 0, RST, b"");
    assert_eq!(rt.receive_tcp(client(), server(), stray_reset, true, 0), None);
    let foreign = segment(4000, 80, 5, 0, SYN, b"");
    assert_eq!(rt.receive_tcp(client(), server(), foreign, false, 0), None);
    assert!(rt.tcp_connections().is_empty());
}

#[test]
fn retransmission_backs_off_then_gives_up() {
    let mut rt = TcpRuntime::new();
    let syn = rt.tcp_connect(client_socket(), true, 0).unwrap();
    assert!(rt.tcp_tick(999_999).is_empty());
    let resent = rt.tcp_tick(1_000_000);
    assert_eq!(resent.len(), 1);
    assert_eq!(resent[0].0, client_socket());
    assert_eq!(resent[0].1, syn);
    assert_eq!(rt.connection(client_socket()).unwrap().retransmissions, 1);
    assert!(rt.tcp_tick(2_999_999).is_empty());
    assert_eq!(rt.tcp_tick(3_000_000).len(), 1);
    assert_eq!(rt.tcp_tick(7_000_000).len(), 1);
    assert_eq!(rt.tcp_tick(15_000_000).len(), 1);
    assert_eq!(rt.tcp_tick(31_000_000).len(), 1);
    assert_eq!(rt.connection(client_socket()).unwrap().retransmissions, 5);
    assert!(rt.tcp_tick(63_000_000).is_empty());
    assert_eq!(state(&rt, client_socket()), Some(TcpState::Closed));
    assert!(rt.tcp_tick(63_000_001).is_empty());
    assert!(rt.tcp_connections().is_empty());
}

#[test]
fn idle_connections_expire() {
    let mut rt = TcpRuntime::new();
    rt.tcp_listen(80).unwrap();
    let syn = segment(4000, 80, 100, 0, SYN, b"");
    rt.receive_tcp(client(), server(), syn, true, 0).unwrap();
    let ack = segment(4000, 80, 101, 64001, ACK, b"");
    rt.receive_tcp(client(), server(), ack, true, 0);
    assert!(rt.tcp_tick(299_999_999).is_empty());
    assert_eq!(state(&rt, server_socket()), Some(TcpState::Established));
    rt.tcp_tick(300_000_000);
    assert_eq!(state(&rt, server_socket()), None);
}

#[test]
fn out_of_order_and_oversized_segments_are_acknowledged_without_delivery() {
    let mut rt = TcpRuntime::new();
    rt.tcp_listen(80).unwrap();
    rt.receive_tcp(client(), server(), segment(4000, 80, 100, 0, SYN, b""), true, 0);
    rt.receive_tcp(client(), server(), segment(4000, 80, 101, 64001, ACK, b""), true, 0);

    let early = segment(4000, 80, 500, 64001, ACK, b"zz");
    let reply = rt.receive_tcp(client(), server(), early, true, 1).unwrap();
    assert_eq!(reply.acknowledgment, 101);
    assert!(rt.connection(server_socket()).unwrap().received().is_empty());

    let full = vec![7u8; 65535];
    let reply = rt.receive_tcp(client(), server(), segment(4000, 80, 101, 64001, ACK, &full), true, 2).unwrap();
    assert_eq!(reply.window, 0);
    let more = segment(4000, 80, 101u32.wrapping_add(65535), 64001, ACK, b"x");
    let reply = rt.receive_tcp(client(), server(), more, true, 3).unwrap();
    assert_eq!(reply.window, 0);
    assert_eq!(rt.connection(server_socket()).unwrap().received().len(), 65535);
}

#[test]
fn active_close_waits_then_expires() {
    let mut rt = TcpRuntime::new();
    rt.tcp_connect(client_socket(), true, 0).unwrap();
    rt.receive_tcp(server(), client(), segment(80, 4000, 900, 64001, SYN | ACK, b""), true, 0);
    let fin = rt.tcp_close(client_socket(), 1).unwrap();
    assert_eq!(fin.flags, ACK | FIN);
    assert_eq!(state(&rt, client_socket()), Some(TcpState::FinWait));
    rt.receive_tcp(server(), client(), segment(80, 4000, 901, 64002, ACK, b""), true, 2);
    assert_eq!(state(&rt, client_socket()), Some(TcpState::FinWait));
    let reply = rt.receive_tcp(server(), client(), segment(80, 4000, 901, 64002, ACK | FIN, b""), true, 3).unwrap();
    assert_eq!(reply.acknowledgment, 902);
    assert_eq!(state(&rt, client_socket()), Some(TcpState::TimeWait));
    rt.tcp_tick(120_000_002);
    assert_eq!(state(&rt, client_socket()), Some(TcpState::TimeWait));
    rt.tcp_tick(120_000_003);
    assert_eq!(state(&rt, client_socket()), None);
}

#[test]
fn connections_are_listed_in_socket_order() {
    let mut rt = TcpRuntime::new();
    let mut high = client_socket();
    high.local_port = 6000;
    let mut low = client_socket();
    low.local_port = 5000;
    rt.tcp_connect(high, true, 0).unwrap();
    rt.tcp_connect(low, true, 0).unwrap();
    let listed: Vec<u16> = rt.tcp_connections().iter().map(|(s, _)| s.local_port).collect();
    assert_eq!(listed, vec![5000, 6000]);
    assert_eq!(rt.tcp_connections()[1].1.state, TcpState::SynSent);
}
