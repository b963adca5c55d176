use rios::{
    ospf_interface_lsas, ospf_router_flags, ospf_router_lsa, InterfaceId, Ipv4Addr, Ipv4InterfaceConfig, OspfActiveInterface, OspfLinkNeighbor,
    OspfNetworkType, RouterLink, RouterLinkKind,
};

const ADDRESS: u32 = 0x0a00_0001;

fn interface(network: OspfNetworkType, dr: Option<u32>, loopback: bool) -> OspfActiveInterface {
    OspfActiveInterface {
        id: InterfaceId(1),
        ip: Ipv4InterfaceConfig::new(Ipv4Addr(ADDRESS), 24).unwrap(),
        loopback,
        cost: 10,
        network,
        dr,
    }
}

fn neighbor(interface: u64, router_id: u32, address: u32, full: bool) -> OspfLinkNeighbor {
    OspfLinkNeighbor { interface: InterfaceId(interface), router_id, address, full }
}

#[test]
fn the_designated_router_originates_the_network_lsa() {
    let ns = [neighbor(1, 5, ADDRESS + 1, true), neighbor(2, 9, 0x0b00_0002, true), neighbor(1, 3, ADDRESS + 2, true), neighbor(1, 7, ADDRESS + 3, false)];
    let (links, network) = ospf_interface_lsas(&interface(OspfNetworkType::Broadcast, Some(ADDRESS), false), &ns, 4);
    assert_eq!(links, vec![RouterLink { id: ADDRESS, data: ADDRESS, kind: RouterLinkKind::Transit, metric: 10 }]);
    let lsa = network.unwrap();
    assert_eq!((lsa.kind, lsa.link_state_id, lsa.advertising_router), (2, ADDRESS, 4));
    assert_eq!(lsa.body, vec![0xffff_ff00, 3, 4, 5]);
}

#[test]
fn without_full_neighbors_the_prefix_is_a_stub() {
    let (links, network) = ospf_interface_lsas(&interface(OspfNetworkType::Broadcast, Some(ADDRESS), false), &[], 4);
    assert_eq!(links, vec![RouterLink { id: 0x0a00_0000, data: 0xffff_ff00, kind: RouterLinkKind::Stub, metric: 10 }]);
    assert!(network.is_none());
    let (links, _) = ospf_interface_lsas(&interface(OspfNetworkType::Broadcast, None, true), &[], 4);
    assert_eq!(links, vec![RouterLink { id: ADDRESS, data: 0xffff_ffff, kind: RouterLinkKind::Stub, metric: 10 }]);
}

#[test]
fn point_to_point_neighbors_each_get_a_link() {
    let ns = [neighbor(1, 5, ADDRESS + 1, true)];
    let (links, network) = ospf_interface_lsas(&interface(OspfNetworkType::PointToPoint, None, false), &ns, 4);
    assert_eq!(
        links,
        vec![
            RouterLink { id: 0x0a00_0000, data: 0xffff_ff00, kind: RouterLinkKind::Stub, metric: 10 },
            RouterLink { id: 5, data: ADDRESS, kind: RouterLinkKind::PointToPoint, metric: 10 },
        ]
    );
    assert!(network.is_none());
}

#[test]
fn the_router_lsa_lists_its_links_after_the_flags() {
    let links = vec![
        RouterLink { id: ADDRESS, data: ADDRESS, kind: RouterLinkKind::Transit, metric: 10 },
        RouterLink { id: 5, data: ADDRESS, kind: RouterLinkKind::PointToPoint, metric: 1 },
    ];
    let flags = ospf_router_flags(&vec![0, 1], true);
    assert_eq!(flags, 3);
    assert_eq!(ospf_router_flags(&vec![1, 2], false), 0);
    let lsa = ospf_router_lsa(&links, flags, 4);
    assert_eq!((lsa.kind, lsa.link_state_id, lsa.advertising_router), (1, 4, 4));
    assert_eq!(lsa.body, vec![0x0300_0002, ADDRESS, ADDRESS, 0x0200_000a, 5, ADDRESS, 0x0100_0001]);
}
