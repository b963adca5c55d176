use rios::{
    ospfv3_accept, ospfv3_hello, ospfv3_update_fits, LsaDatabase, OspfLsa, InterfaceId, Ipv4Addr, Ipv6Addr, Ospfv3Header, Ospfv3Hello, Ospfv3NeighborState,
    Ospfv3Neighbors, Ospfv3Port,
};

const SELF: Ipv4Addr = Ipv4Addr(0x0101_0101);
const PEER: Ipv4Addr = Ipv4Addr(0x0202_0202);
const PEER_LL: Ipv6Addr = Ipv6Addr(0xfe80_0000_0000_0000_0000_0000_0000_0002);

fn port() -> Ospfv3Port {
    Ospfv3Port {
        area: 0,
        address: Ipv6Addr(0xfe80_0000_0000_0000_0000_0000_0000_0001),
        hello_interval: 10,
        dead_interval: 40,
        hello_due: 500,
    }
}

fn hello(neighbors: Vec<Ipv4Addr>) -> Ospfv3Hello {
    Ospfv3Hello {
        interface_id: 7,
        priority: 1,
        options: 0x13,
        hello_interval: 10,
        dead_interval: 40,
        designated_router: Ipv4Addr(0),
        backup_router: Ipv4Addr(0),
        neighbors,
    }
}

#[test]
fn packets_from_elsewhere_are_ignored() {
    let p = port();
    let good = Ospfv3Header { area: 0, instance: 0, router_id: PEER };
    assert!(ospfv3_accept(&p, SELF, PEER_LL, &good));
    assert!(!ospfv3_accept(&p, SELF, PEER_LL, &Ospfv3Header { area: 1, ..good }));
    assert!(!ospfv3_accept(&p, SELF, PEER_LL, &Ospfv3Header { instance: 1, ..good }));
    assert!(!ospfv3_accept(&p, SELF, PEER_LL, &Ospfv3Header { router_id: SELF, ..good }));
    assert!(!ospfv3_accept(&p, SELF, PEER_LL, &Ospfv3Header { router_id: Ipv4Addr(0xe000_0005), ..good }));
    assert!(!ospfv3_accept(&p, SELF, PEER_LL, &Ospfv3Header { router_id: Ipv4Addr(0), ..good }));
    assert!(!ospfv3_accept(&p, SELF, Ipv6Addr(0x2001_0db8 << 96), &good));
    assert!(!ospfv3_accept(&p, SELF, p.address, &good));
}

#[test]
fn hellos_bring_a_neighbor_to_two_way() {
    let mut ns = Ospfv3Neighbors::new();
    let mut p = port();
    assert!(ospfv3_hello(&mut ns, &mut p, InterfaceId(1), PEER_LL, PEER, SELF, &hello(vec![]), 1_000));
    assert_eq!(p.hello_due, 1_000);
    let n = ns.neighbors()[0].1;
    assert_eq!(n.state, Ospfv3NeighborState::Init);
    assert_eq!(n.dead_at, 40_001_000);
    assert!(ospfv3_hello(&mut ns, &mut p, InterfaceId(1), PEER_LL, PEER, SELF, &hello(vec![SELF]), 2_000));
    assert_eq!(ns.neighbors()[0].1.state, Ospfv3NeighborState::TwoWay);
    assert_eq!(p.hello_due, 1_000);
    assert_eq!(ns.neighbors().len(), 1);
}

#[test]
fn a_hello_that_disagrees_is_dropped() {
    let mut ns = Ospfv3Neighbors::new();
    let mut p = port();
    let slow = Ospfv3Hello { hello_interval: 30, ..hello(vec![SELF]) };
    assert!(!ospfv3_hello(&mut ns, &mut p, InterfaceId(1), PEER_LL, PEER, SELF, &slow, 0));
    let no_v6 = Ospfv3Hello { options: 0x02, ..hello(vec![SELF]) };
    assert!(!ospfv3_hello(&mut ns, &mut p, InterfaceId(1), PEER_LL, PEER, SELF, &no_v6, 0));
    assert!(ns.neighbors().is_empty());
    assert_eq!(p.hello_due, 500);
}

#[test]
fn an_update_with_too_many_new_lsas_is_dropped() {
    let mut db = LsaDatabase::new();
    let lsa = OspfLsa { kind: 1, link_state_id: 0, advertising_router: 1, age: 0, sequence: 1, body: vec![] };
    db.originate(&vec![((0, 1, 0, 1), lsa)], 1, 0, 10, false);
    let keys = [(0, 1, 0, 1), (0, 2, 5, 9), (0, 2, 5, 9)];
    assert!(ospfv3_update_fits(&db, &keys, 2));
    assert!(!ospfv3_update_fits(&db, &keys, 1));
    assert!(ospfv3_update_fits(&db, &keys[..1], 1));
}

fn link_neighbor(interface: u32, router_id: u32, interface_id: u32, full: bool) -> rios::Ospfv3LinkNeighbor {
    rios::Ospfv3LinkNeighbor { interface, router_id, interface_id, full }
}

#[test]
fn a_designated_router_lists_its_network_members_in_order() {
    let i = rios::Ospfv3ActiveInterface { id: 3, cost: 5, network: rios::OspfNetworkType::Broadcast, dr: Some(4) };
    let ns = [link_neighbor(3, 9, 21, true), link_neighbor(3, 2, 22, true), link_neighbor(1, 7, 23, true)];
    let (links, members) = rios::ospfv3_interface_links(&i, &ns, 4);
    assert_eq!(
        links,
        vec![rios::Ospfv3RouterLink {
            kind: rios::Ospfv3LinkKind::Transit,
            metric: 5,
            interface_id: 3,
            neighbor_interface_id: 3,
            neighbor_router: 4,
        }]
    );
    assert_eq!(members, Some(vec![2, 4, 9]));
    // Another router is designated router: the link names its interface, and no members.
    let other = rios::Ospfv3ActiveInterface { dr: Some(2), ..i };
    let (links, members) = rios::ospfv3_interface_links(&other, &ns, 4);
    assert_eq!(links[0].neighbor_interface_id, 22);
    assert_eq!(links[0].neighbor_router, 2);
    assert!(members.is_none());
}

#[test]
fn point_to_point_neighbors_each_get_a_v3_link() {
    let i = rios::Ospfv3ActiveInterface { id: 3, cost: 5, network: rios::OspfNetworkType::PointToPoint, dr: None };
    let ns = [link_neighbor(3, 9, 21, true), link_neighbor(3, 8, 20, false)];
    let (links, members) = rios::ospfv3_interface_links(&i, &ns, 4);
    assert_eq!(links.len(), 1);
    assert_eq!((links[0].kind, links[0].neighbor_router, links[0].neighbor_interface_id), (rios::Ospfv3LinkKind::PointToPoint, 9, 21));
    assert!(members.is_none());
}
