use rios::{
    AdminState, ChannelMode, Device, InterfaceId, LacpNeighbors, LacpPortInfo, Lacpdu, LinkState,
};

const US: [u8; 6] = [2, 0, 0, 1, 0, 1];
const THEM: [u8; 6] = [2, 0, 0, 9, 0, 1];

fn bundle(mode_b: ChannelMode) -> (Device, InterfaceId, InterfaceId) {
    let mut r = Device::standalone();
    let a = InterfaceId(1);
    let b = InterfaceId(2);
    r.set_channel_group(a, 1, ChannelMode::Active).unwrap();
    r.set_channel_group(b, 1, mode_b).unwrap();
    for port in [a, b] {
        r.set_admin_state(port, AdminState::Up).unwrap();
        r.set_link_state(port, LinkState::Up).unwrap();
    }
    (r, a, b)
}

fn our_actor(port: u16, state: u8) -> LacpPortInfo {
    LacpPortInfo {
        system_priority: 32768,
        system: US,
        key: 1,
        port_priority: 32768,
        port,
        state,
    }
}

fn their(state: u8, partner: LacpPortInfo) -> Lacpdu {
    Lacpdu {
        actor: LacpPortInfo {
            system_priority: 32768,
            system: THEM,
            key: 5,
            port_priority: 32768,
            port: 1,
            state,
        },
        partner,
        collector_delay: 0,
    }
}

#[test]
fn an_active_member_without_partner_advertises_defaults() {
    let (r, a, _) = bundle(ChannelMode::Active);
    let neighbors = LacpNeighbors::new();
    let pdu = r.lacp_advertisement(&neighbors, a).unwrap();
    assert_eq!(pdu.actor, our_actor(1, 0x47));
    assert_eq!(pdu.partner, LacpPortInfo::default());
    assert_eq!(pdu.collector_delay, 0);
    assert!(!r.lacp_distributing(&neighbors, a));
}

#[test]
fn passive_members_wait_for_an_active_partner() {
    let (r, _, b) = bundle(ChannelMode::Passive);
    let mut neighbors = LacpNeighbors::new();
    assert_eq!(r.lacp_advertisement(&neighbors, b), None);
    let reply = r.receive_lacp(&mut neighbors, b, their(0x05, LacpPortInfo::default()), 0);
    assert_eq!(reply.unwrap().actor.state, 0x06);
}

#[test]
fn partners_move_a_member_to_distributing() {
    let (r, a, _) = bundle(ChannelMode::Active);
    let mut neighbors = LacpNeighbors::new();
    let first = r
        .receive_lacp(&mut neighbors, a, their(0x05, LacpPortInfo::default()), 0)
        .unwrap();
    assert_eq!(first.actor.state, 0x07);
    assert_eq!(first.partner, their(0x05, LacpPortInfo::default()).actor);
    assert_eq!(
        r.receive_lacp(&mut neighbors, a, their(0x05, LacpPortInfo::default()), 10),
        None
    );
    let synced = r
        .receive_lacp(&mut neighbors, a, their(0x0d, our_actor(1, 0x07)), 20)
        .unwrap();
    assert_eq!(synced.actor.state, 0x1f);
    assert!(!r.lacp_distributing(&neighbors, a));
    let collecting = r
        .receive_lacp(&mut neighbors, a, their(0x1d, our_actor(1, 0x1f)), 30)
        .unwrap();
    assert_eq!(collecting.actor.state, 0x3f);
    assert!(r.lacp_distributing(&neighbors, a));
    assert_eq!(neighbors.lacp_neighbors().len(), 1);
    assert_eq!(neighbors.lacp_neighbors()[0].1.expires_at, 3_000_030);
}

#[test]
fn unacceptable_advertisements_are_ignored() {
    let (r, a, _) = bundle(ChannelMode::Active);
    let mut neighbors = LacpNeighbors::new();
    let good = their(0x05, LacpPortInfo::default());
    let mut own = good;
    own.actor.system = US;
    let mut zero = good;
    zero.actor.system = [0; 6];
    let mut group = good;
    group.actor.system = [3, 0, 0, 0, 0, 1];
    let mut no_port = good;
    no_port.actor.port = 0;
    let mut no_aggregation = good;
    no_aggregation.actor.state = 0x01;
    for bad in [own, zero, group, no_port, no_aggregation] {
        assert_eq!(r.receive_lacp(&mut neighbors, a, bad, 0), None);
    }
    assert!(neighbors.lacp_neighbors().is_empty());
}

#[test]
fn silent_partners_expire_on_tick() {
    let (r, a, b) = bundle(ChannelMode::Active);
    let mut neighbors = LacpNeighbors::new();
    r.receive_lacp(&mut neighbors, a, their(0x05, LacpPortInfo::default()), 0);
    let adverts = r.lacp_tick(&mut neighbors, 2_999_999);
    assert_eq!(neighbors.lacp_neighbors().len(), 1);
    assert_eq!(adverts.len(), 2);
    assert_eq!(adverts[0].0, a);
    assert_eq!(adverts[0].1.actor.state, 0x07);
    assert_eq!(adverts[1].0, b);
    assert_eq!(adverts[1].1.actor.state, 0x47);
    let adverts = r.lacp_tick(&mut neighbors, 3_000_000);
    assert!(neighbors.lacp_neighbors().is_empty());
    assert_eq!(adverts[0].1.actor.state, 0x47);
    neighbors.forget(a);
    assert!(neighbors.lacp_neighbors().is_empty());
}

#[test]
fn the_selected_partner_has_the_lowest_identity() {
    let (r, a, b) = bundle(ChannelMode::Active);
    let mut neighbors = LacpNeighbors::new();
    let mut other = their(0x0d, our_actor(2, 0x07));
    other.actor.system = [2, 0, 0, 8, 0, 1];
    r.receive_lacp(&mut neighbors, b, other, 0);
    let reply = r
        .receive_lacp(&mut neighbors, a, their(0x0d, our_actor(1, 0x07)), 0)
        .unwrap();
    assert_eq!(reply.actor.state & 0x08, 0);
    let b_state = r.lacp_advertisement(&neighbors, b).unwrap().actor.state;
    assert_eq!(b_state & 0x18, 0x18);
}

#[test]
fn only_lacp_members_advertise() {
    let mut r = Device::standalone();
    let neighbors = LacpNeighbors::new();
    assert!(!r.has_lacp());
    assert_eq!(r.lacp_advertisement(&neighbors, InterfaceId(1)), None);
    r.set_channel_group(InterfaceId(1), 1, ChannelMode::On).unwrap();
    r.set_admin_state(InterfaceId(1), AdminState::Up).unwrap();
    r.set_link_state(InterfaceId(1), LinkState::Up).unwrap();
    assert!(!r.has_lacp());
    assert_eq!(r.lacp_advertisement(&neighbors, InterfaceId(1)), None);
    let (lacp, a, _) = bundle(ChannelMode::Active);
    assert!(lacp.has_lacp());
    let mut down = lacp.clone();
    down.set_link_state(a, LinkState::Down).unwrap();
    assert_eq!(down.lacp_advertisement(&neighbors, a), None);
}
