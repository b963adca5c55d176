use rios::{
    AccessListAction, DeviceError, Ipv4Addr, Ipv4Network, PrefixListEntry, RouteMapEntry,
    RouteMapId, RoutingPolicy,
};

fn ten_slash_eight(ge: Option<u8>, le: Option<u8>) -> PrefixListEntry {
    PrefixListEntry {
        action: AccessListAction::Permit,
        prefix: Ipv4Network::new(Ipv4Addr::new(10, 0, 0, 0), 8).unwrap(),
        ge,
        le,
    }
}

fn sequences(p: &RoutingPolicy, name: &str) -> Vec<u32> {
    p.prefix_list(name).map(|l| l.iter().map(|e| e.0).collect()).unwrap_or_default()
}

#[test]
fn validated_policy_edits_preserve_state_on_error_and_bound_tables() {
    let mut d = RoutingPolicy::new();
    let permit = AccessListAction::Permit;
    let entry = ten_slash_eight(Some(16), Some(24));
    assert_eq!(d.set_prefix_list_entry("TEN", None, entry, &routing_device()).unwrap(), 5);
    assert_eq!(d.set_prefix_list_entry("TEN", None, entry, &routing_device()).unwrap(), 10);
    let saved = (d.prefix_list("TEN").unwrap().clone(), d.prefix_list_count(), d.route_map_count());
    assert!(d.set_prefix_list_entry("bad name", None, entry, &routing_device()).is_err());
    assert!(d.set_prefix_list_entry("TEN", Some(0), entry, &routing_device()).is_err());
    let mut bad = entry;
    bad.ge = Some(30);
    assert!(d.set_prefix_list_entry("TEN", Some(5), bad, &routing_device()).is_err());
    assert_eq!((d.prefix_list("TEN").unwrap().clone(), d.prefix_list_count(), d.route_map_count()), saved);
    for n in 1..256 {
        d.set_prefix_list_entry(&format!("P{n}"), None, entry, &routing_device()).unwrap();
    }
    assert!(d.set_prefix_list_entry("OVERFLOW", None, entry, &routing_device()).is_err());
    d.remove_prefix_list("TEN", Some(5)).unwrap();
    assert!(!sequences(&d, "TEN").contains(&5));
    let id = d.ensure_route_map("IN", permit, 10, &routing_device()).unwrap();
    let mut rule = RouteMapEntry::new(permit);
    rule.as_prepend = vec![0];
    assert!(d.set_route_map_entry(id, 10, rule).is_err());
    let clause = &d.route_map(id).unwrap().entries.iter().find(|e| e.0 == 10).unwrap().1;
    assert!(clause.as_prepend.is_empty());
    d.remove_route_map("IN", Some(10)).unwrap();
    assert!(d.route_map(id).is_none());
}

#[test]
fn prefix_length_ranges_are_checked() {
    assert!(ten_slash_eight(None, None).valid());
    assert!(ten_slash_eight(Some(9), None).valid());
    assert!(!ten_slash_eight(Some(8), None).valid());
    assert!(ten_slash_eight(None, Some(32)).valid());
    assert!(!ten_slash_eight(None, Some(33)).valid());
    assert!(ten_slash_eight(Some(24), Some(24)).valid());
    assert!(!ten_slash_eight(Some(25), Some(24)).valid());
}

#[test]
fn prefix_sequences_and_removal() {
    let mut d = RoutingPolicy::new();
    let entry = ten_slash_eight(None, None);
    assert_eq!(
        d.set_prefix_list_entry("EDGE", None, entry, &plain_switch()),
        Err(DeviceError::InvalidRoutingPolicy)
    );
    assert_eq!(d.set_prefix_list_entry("EDGE", Some(20), entry, &routing_device()), Ok(20));
    assert_eq!(d.set_prefix_list_entry("EDGE", Some(7), entry, &routing_device()), Ok(7));
    assert_eq!(d.set_prefix_list_entry("EDGE", None, entry, &routing_device()), Ok(25));
    assert_eq!(sequences(&d, "EDGE"), vec![7, 20, 25]);
    assert_eq!(d.set_prefix_list_entry("EDGE", Some(u32::MAX), entry, &routing_device()), Err(DeviceError::InvalidRoutingPolicy));
    assert_eq!(d.set_prefix_list_entry("EDGE", Some(u32::MAX - 3), entry, &routing_device()), Ok(u32::MAX - 3));
    assert_eq!(d.set_prefix_list_entry("EDGE", None, entry, &routing_device()), Err(DeviceError::InvalidRoutingPolicy));
    d.remove_prefix_list("EDGE", Some(20)).unwrap();
    assert_eq!(sequences(&d, "EDGE"), vec![7, 25, u32::MAX - 3]);
    assert_eq!(d.remove_prefix_list("no way", None), Err(DeviceError::InvalidRoutingPolicy));
    d.remove_prefix_list("MISSING", Some(5)).unwrap();
    d.remove_prefix_list("EDGE", None).unwrap();
    assert!(d.prefix_list("EDGE").is_none());
    d.set_prefix_list_entry("ONE", None, entry, &routing_device()).unwrap();
    d.remove_prefix_list("ONE", Some(5)).unwrap();
    assert!(d.prefix_list("ONE").is_none());
    assert_eq!(d.prefix_list_count(), 0);
}

#[test]
fn prefix_list_holds_at_most_4096_clauses() {
    let mut d = RoutingPolicy::new();
    let entry = ten_slash_eight(None, None);
    for _ in 0..4096 {
        d.set_prefix_list_entry("BIG", None, entry, &routing_device()).unwrap();
    }
    assert_eq!(d.set_prefix_list_entry("BIG", None, entry, &routing_device()), Err(DeviceError::InvalidRoutingPolicy));
    assert_eq!(d.set_prefix_list_entry("BIG", Some(5), entry, &routing_device()), Ok(5));
}

#[test]
fn route_map_clauses_keep_their_statements_and_identifiers_advance() {
    let mut d = RoutingPolicy::new();
    let permit = AccessListAction::Permit;
    let deny = AccessListAction::Deny;
    assert_eq!(d.ensure_route_map("IN", permit, 0, &routing_device()), Err(DeviceError::InvalidRoutingPolicy));
    assert_eq!(d.ensure_route_map("IN", permit, 10, &plain_switch()), Err(DeviceError::InvalidRoutingPolicy));
    let a = d.ensure_route_map("IN", permit, 10, &routing_device()).unwrap();
    let b = d.ensure_route_map("OUT", deny, 10, &routing_device()).unwrap();
    assert_eq!((a, b), (RouteMapId(1), RouteMapId(2)));
    let mut rule = RouteMapEntry::new(permit);
    rule.local_preference = Some(200);
    rule.prefix_lists = vec!["TEN".to_string()];
    rule.as_prepend = vec![65001, 65001];
    d.set_route_map_entry(a, 10, rule).unwrap();
    assert_eq!(d.ensure_route_map("IN", deny, 10, &routing_device()), Ok(a));
    let clause = &d.route_map(a).unwrap().entries[0].1;
    assert_eq!(clause.action, deny);
    assert_eq!(clause.local_preference, Some(200));
    assert_eq!(clause.as_prepend, vec![65001, 65001]);
    assert_eq!(d.ensure_route_map("IN", permit, 5, &routing_device()), Ok(a));
    let seqs: Vec<u32> = d.route_map(a).unwrap().entries.iter().map(|e| e.0).collect();
    assert_eq!(seqs, vec![5, 10]);
    assert_eq!(d.set_route_map_entry(a, 99, RouteMapEntry::new(permit)), Err(DeviceError::InvalidRoutingPolicy));
    assert_eq!(d.set_route_map_entry(RouteMapId(9), 10, RouteMapEntry::new(permit)), Err(DeviceError::InvalidRoutingPolicy));
    let mut bad = RouteMapEntry::new(permit);
    bad.prefix_lists = vec!["bad name".to_string()];
    assert_eq!(d.set_route_map_entry(a, 10, bad), Err(DeviceError::InvalidRoutingPolicy));
    let mut long = RouteMapEntry::new(permit);
    long.as_prepend = vec![65001; 65];
    assert_eq!(d.set_route_map_entry(a, 10, long), Err(DeviceError::InvalidRoutingPolicy));
    d.remove_route_map("OUT", None).unwrap();
    assert!(d.route_map(b).is_none());
    assert_eq!(d.ensure_route_map("NEW", permit, 10, &routing_device()), Ok(RouteMapId(2)));
    d.remove_route_map("IN", Some(5)).unwrap();
    assert!(d.route_map(a).is_some());
    d.remove_route_map("ABSENT", None).unwrap();
    assert_eq!(d.remove_route_map("bad name", None), Err(DeviceError::InvalidRoutingPolicy));
    assert_eq!(d.route_map_count(), 2);
}

fn routing_device() -> rios::Device {
    rios::Device::new(rios::DeviceId(90), "R90", rios::DeviceType::Router).unwrap()
}

fn plain_switch() -> rios::Device {
    rios::Device::new(rios::DeviceId(91), "SW91", rios::DeviceType::Switch).unwrap()
}
