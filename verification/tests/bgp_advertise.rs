use rios::{bgp_advertise_updates, BgpAdvertised, BgpAttributes, Ipv4Addr, Ipv4Network};

fn net(a: u8, b: u8, len: u8) -> Ipv4Network {
    Ipv4Network::new(Ipv4Addr::new(a, b, 0, 0), len).unwrap()
}

fn attrs(path: Vec<u32>) -> BgpAttributes {
    BgpAttributes {
        as_path: path,
        next_hop: Ipv4Addr::new(10, 0, 0, 1),
        local_preference: None,
        med: None,
        originator_id: None,
        cluster_list: vec![],
    }
}

fn prefixes(v: &[(Ipv4Network, BgpAttributes)]) -> Vec<Ipv4Network> {
    v.iter().map(|(p, _)| *p).collect()
}

#[test]
fn new_routes_are_announced_once_and_unwanted_ones_withdrawn() {
    let mut adv = BgpAdvertised::new();
    let desired = vec![(net(10, 0, 8), attrs(vec![65001])), (net(10, 1, 16), attrs(vec![65001]))];
    let (withdrawn, announced) = bgp_advertise_updates(&mut adv, &desired, 0);
    assert!(withdrawn.is_empty());
    assert_eq!(prefixes(&announced), vec![net(10, 0, 8), net(10, 1, 16)]);
    let (withdrawn, announced) = bgp_advertise_updates(&mut adv, &desired, 0);
    assert!(withdrawn.is_empty() && announced.is_empty());
    let changed = vec![(net(10, 1, 16), attrs(vec![65001, 65002]))];
    let (withdrawn, announced) = bgp_advertise_updates(&mut adv, &changed, 0);
    assert_eq!(withdrawn, vec![net(10, 0, 8)]);
    assert_eq!(prefixes(&announced), vec![net(10, 1, 16)]);
    assert_eq!(prefixes(adv.routes()), vec![net(10, 1, 16)]);
    assert_eq!(adv.routes()[0].1.as_path, vec![65001, 65002]);
}

#[test]
fn a_busy_send_queue_limits_the_round() {
    let mut adv = BgpAdvertised::new();
    let desired = vec![(net(10, 0, 8), attrs(vec![1])), (net(10, 1, 16), attrs(vec![1]))];
    let (_, announced) = bgp_advertise_updates(&mut adv, &desired, 16);
    assert!(announced.is_empty());
    let (_, announced) = bgp_advertise_updates(&mut adv, &desired, 15);
    assert_eq!(prefixes(&announced), vec![net(10, 0, 8)]);
    let (_, announced) = bgp_advertise_updates(&mut adv, &desired, 0);
    assert_eq!(prefixes(&announced), vec![net(10, 1, 16)]);
}
