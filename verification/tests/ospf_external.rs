use rios::{
    ospf_external_lsas, ospf_external_prefixes, Ipv4Addr, Ipv4Network, OspfDefaultRoute, OspfLsa,
    OspfRedistribute, Route, RouteSource,
};

const SELF: u32 = 0x0101_0101;

fn addr(a: u8, b: u8, c: u8, d: u8) -> u32 {
    Ipv4Addr::new(a, b, c, d).0
}

fn route(a: u8, b: u8, c: u8, d: u8, length: u8, source: RouteSource) -> Route {
    Route {
        prefix: Ipv4Network::new(Ipv4Addr::new(a, b, c, d), length).unwrap(),
        next_hop: None,
        outgoing_interface: None,
        administrative_distance: 1,
        metric: 0,
        source,
    }
}

fn summary(lsas: &[((u32, u8, u32, u32), OspfLsa)]) -> Vec<(u32, u32, Vec<u32>)> {
    for (key, lsa) in lsas {
        assert_eq!(*key, (0, 5, lsa.link_state_id, SELF));
        assert_eq!(lsa.kind, 5);
        assert_eq!(lsa.advertising_router, SELF);
        assert_eq!(lsa.age, 0);
        assert_eq!(lsa.sequence, -2147483647);
    }
    lsas.iter().map(|(_, l)| (l.link_state_id, l.body[0], l.body.clone())).collect()
}

#[test]
fn statics_are_redistributed_longest_first_and_the_default_follows_policy() {
    let routes = vec![
        route(10, 1, 0, 0, 16, RouteSource::Static),
        route(192, 168, 0, 0, 24, RouteSource::Connected),
        route(10, 1, 1, 0, 24, RouteSource::Static),
        route(10, 1, 1, 0, 24, RouteSource::Static),
        route(0, 0, 0, 0, 0, RouteSource::Static),
    ];
    let redistribute = Some(OspfRedistribute { metric: 20, type_two: true });
    let default = Some(OspfDefaultRoute { metric: 1, type_two: false, always: false });
    let prefixes = ospf_external_prefixes(&routes, redistribute, default);
    let shown: Vec<_> = prefixes.iter().map(|(p, m, t)| (p.address().0, p.prefix_len(), *m, *t)).collect();
    assert_eq!(
        shown,
        vec![
            (addr(10, 1, 1, 0), 24, 20, true),
            (addr(10, 1, 0, 0), 16, 20, true),
            (0, 0, 1, false),
        ]
    );
    let lsas = ospf_external_lsas(SELF, &routes, redistribute, default);
    assert_eq!(
        summary(&lsas),
        vec![
            (addr(10, 1, 1, 0), 0xffff_ff00, vec![0xffff_ff00, 0x8000_0014, 0, 0]),
            (addr(10, 1, 0, 0), 0xffff_0000, vec![0xffff_0000, 0x8000_0014, 0, 0]),
            (0, 0, vec![0, 1, 0, 0]),
        ]
    );
}

#[test]
fn default_origination_needs_a_default_route_unless_always() {
    let routes = vec![route(10, 0, 0, 0, 8, RouteSource::Static)];
    let sometimes = Some(OspfDefaultRoute { metric: 5, type_two: true, always: false });
    assert!(ospf_external_lsas(SELF, &routes, None, sometimes).is_empty());
    let always = Some(OspfDefaultRoute { metric: 5, type_two: true, always: true });
    let lsas = ospf_external_lsas(SELF, &routes, None, always);
    assert_eq!(summary(&lsas), vec![(0, 0, vec![0, 0x8000_0005, 0, 0])]);
    let connected_default = vec![route(0, 0, 0, 0, 0, RouteSource::Connected)];
    assert_eq!(ospf_external_lsas(SELF, &connected_default, None, sometimes).len(), 1);
    let learned_default = vec![route(0, 0, 0, 0, 0, RouteSource::Ospf)];
    assert!(ospf_external_lsas(SELF, &learned_default, None, sometimes).is_empty());
    assert!(ospf_external_lsas(SELF, &routes, None, None).is_empty());
}

#[test]
fn overlapping_prefixes_take_their_broadcast_or_a_free_host_identifier() {
    let redistribute = Some(OspfRedistribute { metric: 7, type_two: false });
    let routes = vec![
        route(10, 0, 0, 0, 24, RouteSource::Static),
        route(10, 0, 0, 0, 25, RouteSource::Static),
        route(10, 0, 0, 0, 26, RouteSource::Static),
        route(10, 0, 0, 255, 32, RouteSource::Static),
    ];
    let lsas = ospf_external_lsas(SELF, &routes, redistribute, None);
    let ids: Vec<(u32, u32)> = summary(&lsas).into_iter().map(|(id, mask, _)| (id, mask)).collect();
    assert_eq!(
        ids,
        vec![
            (addr(10, 0, 0, 255), 0xffff_ffff),
            (addr(10, 0, 0, 0), 0xffff_ffc0),
            (addr(10, 0, 0, 127), 0xffff_ff80),
            (addr(10, 0, 0, 1), 0xffff_ff00),
        ]
    );
}

#[test]
fn a_prefix_without_a_free_identifier_is_not_advertised() {
    let redistribute = Some(OspfRedistribute { metric: 3, type_two: false });
    let routes = vec![
        route(10, 0, 0, 0, 31, RouteSource::Static),
        route(10, 0, 0, 1, 32, RouteSource::Static),
        route(10, 0, 0, 0, 32, RouteSource::Static),
    ];
    let lsas = ospf_external_lsas(SELF, &routes, redistribute, None);
    let ids: Vec<u32> = summary(&lsas).into_iter().map(|(id, _, _)| id).collect();
    assert_eq!(ids, vec![addr(10, 0, 0, 0), addr(10, 0, 0, 1)]);
}
