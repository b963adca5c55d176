use rios::{BgpAttributes, BgpError, BgpRoutes, BgpUpdate, Ipv4Addr, Ipv4Network};

const LOCAL_AS: u32 = 65000;
const PEER_AS: u32 = 65001;

fn ip(a: u8, b: u8, c: u8, d: u8) -> Ipv4Addr {
    Ipv4Addr::new(a, b, c, d)
}

fn net(third: u8) -> Ipv4Network {
    Ipv4Network::new(ip(10, 0, third, 0), 24).unwrap()
}

fn attrs(path: Vec<u32>, local_preference: Option<u32>) -> BgpAttributes {
    BgpAttributes {
        as_path: path,
        next_hop: ip(192, 0, 2, 1),
        local_preference,
        med: None,
        originator_id: None,
        cluster_list: vec![],
    }
}

fn announce(prefixes: Vec<Ipv4Network>, a: BgpAttributes) -> BgpUpdate {
    BgpUpdate { withdrawn: vec![], announced: prefixes, attributes: Some(a) }
}

#[test]
fn external_routes_drop_local_preference_and_withdrawals_apply() {
    let mut routes = BgpRoutes::new();
    let r = routes.accept_update(&announce(vec![net(1), net(2)], attrs(vec![PEER_AS, 7], Some(300))), PEER_AS, LOCAL_AS, ip(1, 1, 1, 1), None);
    assert_eq!(r, None);
    assert_eq!(routes.routes().len(), 2);
    assert_eq!(routes.routes()[0].1.local_preference, None);
    let withdraw = BgpUpdate { withdrawn: vec![net(1)], announced: vec![], attributes: None };
    assert_eq!(routes.accept_update(&withdraw, PEER_AS, LOCAL_AS, ip(1, 1, 1, 1), None), None);
    assert_eq!(routes.routes().len(), 1);
    assert_eq!(routes.routes()[0].0, net(2));
}

#[test]
fn malformed_paths_and_missing_preferences_clear_the_routes() {
    let mut routes = BgpRoutes::new();
    routes.accept_update(&announce(vec![net(1)], attrs(vec![PEER_AS], None)), PEER_AS, LOCAL_AS, ip(1, 1, 1, 1), None);
    let wrong_first = announce(vec![net(2)], attrs(vec![7, PEER_AS], None));
    assert_eq!(
        routes.accept_update(&wrong_first, PEER_AS, LOCAL_AS, ip(1, 1, 1, 1), None),
        Some(BgpError { code: 3, subcode: 11 })
    );
    assert!(routes.routes().is_empty());
    let internal = announce(vec![net(3)], attrs(vec![], None));
    assert_eq!(
        routes.accept_update(&internal, LOCAL_AS, LOCAL_AS, ip(1, 1, 1, 1), None),
        Some(BgpError { code: 3, subcode: 3 })
    );
    let internal_ok = announce(vec![net(3)], attrs(vec![], Some(100)));
    assert_eq!(routes.accept_update(&internal_ok, LOCAL_AS, LOCAL_AS, ip(1, 1, 1, 1), None), None);
    assert_eq!(routes.routes()[0].1.local_preference, Some(100));
}

#[test]
fn looped_announcements_withdraw_the_prefix() {
    let mut routes = BgpRoutes::new();
    routes.accept_update(&announce(vec![net(1)], attrs(vec![PEER_AS], None)), PEER_AS, LOCAL_AS, ip(1, 1, 1, 1), None);
    let looped = announce(vec![net(1)], attrs(vec![PEER_AS, LOCAL_AS], None));
    assert_eq!(routes.accept_update(&looped, PEER_AS, LOCAL_AS, ip(1, 1, 1, 1), None), None);
    assert!(routes.routes().is_empty());
    let mut reflected = attrs(vec![], Some(100));
    reflected.cluster_list = vec![ip(9, 9, 9, 9)];
    assert_eq!(routes.accept_update(&announce(vec![net(4)], reflected), LOCAL_AS, LOCAL_AS, ip(1, 1, 1, 1), Some(ip(9, 9, 9, 9))), None);
    assert!(routes.routes().is_empty());
    let mut mine = attrs(vec![], Some(100));
    mine.originator_id = Some(ip(1, 1, 1, 1));
    routes.accept_update(&announce(vec![net(5)], mine), LOCAL_AS, LOCAL_AS, ip(1, 1, 1, 1), None);
    assert!(routes.routes().is_empty());
}

#[test]
fn the_route_limit_is_a_cease() {
    let mut routes = BgpRoutes::new();
    let mut prefixes = Vec::new();
    for n in 0..4097u32 {
        let address = Ipv4Addr(0x0a00_0000 + (n << 8));
        prefixes.push(Ipv4Network::new(address, 24).unwrap());
    }
    let update = announce(prefixes, attrs(vec![PEER_AS], None));
    assert_eq!(
        routes.accept_update(&update, PEER_AS, LOCAL_AS, ip(1, 1, 1, 1), None),
        Some(BgpError { code: 6, subcode: 1 })
    );
    assert!(routes.routes().is_empty());
}

fn path(learned_from: Option<Ipv4Addr>, external: bool) -> rios::BgpPath {
    rios::BgpPath {
        attributes: BgpAttributes { med: Some(5), ..attrs(vec![7], None) },
        learned_from,
        external,
        peer_router_id: ip(3, 3, 3, 3),
    }
}

fn peer(remote_as: u32, client: bool) -> rios::ExportPeer {
    rios::ExportPeer {
        address: ip(192, 0, 2, 9),
        remote_as,
        router_id: Some(ip(9, 9, 9, 9)),
        route_reflector_client: client,
        next_hop_self: false,
        local_address: ip(192, 0, 2, 2),
    }
}

#[test]
fn reflection_needs_a_client_and_marks_the_path() {
    let internal = path(Some(ip(192, 0, 2, 3)), false);
    assert!(rios::bgp_export(&internal, peer(LOCAL_AS, false), LOCAL_AS, ip(1, 1, 1, 1), None, false).is_none());
    let reflected = rios::bgp_export(&internal, peer(LOCAL_AS, true), LOCAL_AS, ip(1, 1, 1, 1), None, false).unwrap();
    assert_eq!(reflected.originator_id, Some(ip(3, 3, 3, 3)));
    assert_eq!(reflected.cluster_list, vec![ip(1, 1, 1, 1)]);
    assert_eq!(reflected.local_preference, Some(100));
    assert_eq!(reflected.next_hop, ip(192, 0, 2, 1));
    let mut routes = BgpRoutes::new();
    let back = announce(vec![net(8)], reflected);
    routes.accept_update(&back, LOCAL_AS, LOCAL_AS, ip(1, 1, 1, 1), None);
    assert!(routes.routes().is_empty());
}

#[test]
fn external_export_strips_internal_attributes_and_prepends() {
    let learned = path(Some(ip(192, 0, 2, 3)), true);
    assert!(rios::bgp_export(&learned, rios::ExportPeer { address: ip(192, 0, 2, 3), ..peer(PEER_AS, false) }, LOCAL_AS, ip(1, 1, 1, 1), None, false).is_none());
    let out = rios::bgp_export(&learned, peer(PEER_AS, false), LOCAL_AS, ip(1, 1, 1, 1), None, false).unwrap();
    assert_eq!((out.med, out.next_hop, out.originator_id), (None, ip(192, 0, 2, 2), None));
    let sent = rios::bgp_external_attributes(out, PEER_AS, LOCAL_AS).unwrap();
    assert_eq!(sent.as_path, vec![LOCAL_AS, 7]);
    assert_eq!(sent.local_preference, None);
    assert!(rios::bgp_external_attributes(attrs(vec![PEER_AS], None), PEER_AS, LOCAL_AS).is_none());
}
