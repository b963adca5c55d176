use rios::translation::static_translation;
use rios::{
    AccessListAction, AccessListId, AclKind, AclTable, DeviceError, GlobalSource, InterfaceId,
    Ipv4Addr, NatConfig, NatFlow, NatOutcome, NatPool, NatPoolRule, NatProtocol, NatRole,
    NatTable, NatTransport, StandardAccessListEntry, StaticNat,
};

fn ip(a: u8, b: u8, c: u8, d: u8) -> Ipv4Addr {
    Ipv4Addr::new(a, b, c, d)
}

fn outbound(port: u16) -> NatFlow {
    NatFlow {
        protocol: NatProtocol::Udp,
        address: ip(10, 0, 0, 2),
        port,
        peer_address: ip(203, 0, 113, 2),
        peer_port: 53,
    }
}

fn reply(global: Ipv4Addr, port: u16) -> NatFlow {
    NatFlow { protocol: NatProtocol::Udp, address: global, port, peer_address: ip(203, 0, 113, 2), peer_port: 53 }
}

#[test]
fn udp_pat_round_trip_restores_address_and_port() {
    let mut nat = NatTable::new();
    let outside = GlobalSource::Interface(Some(ip(203, 0, 113, 1)));
    let mapping = nat.nat_outbound(outbound(1234), outside, true, &[], 0).unwrap();
    assert_eq!(mapping, (ip(203, 0, 113, 1), 10_000));
    nat.record_hit();
    let back = nat.translate_nat_inbound(reply(ip(203, 0, 113, 1), 10_000), 1_000);
    assert_eq!(back, Some((ip(10, 0, 0, 2), 1234)));
    let stats = nat.nat_statistics();
    assert_eq!((stats.allocations, stats.hits, stats.misses, stats.drops), (1, 1, 0, 0));
}

#[test]
fn existing_flows_reuse_their_port_and_new_ones_advance() {
    let mut nat = NatTable::new();
    let outside = GlobalSource::Interface(Some(ip(203, 0, 113, 1)));
    assert_eq!(nat.nat_outbound(outbound(1234), outside, true, &[], 0), Some((ip(203, 0, 113, 1), 10_000)));
    assert_eq!(nat.nat_outbound(outbound(1234), outside, true, &[], 5), Some((ip(203, 0, 113, 1), 10_000)));
    let static_port = [StaticNat::Port {
        protocol: NatTransport::Tcp,
        local: ip(10, 0, 0, 9),
        local_port: 80,
        global: ip(203, 0, 113, 9),
        global_port: 10_001,
    }];
    assert_eq!(nat.nat_outbound(outbound(1235), outside, true, &static_port, 6), Some((ip(203, 0, 113, 1), 10_002)));
    assert_eq!(nat.translations().len(), 2);
    assert_eq!(nat.nat_statistics().allocations, 2);
}

#[test]
fn translations_expire_after_a_minute() {
    let mut nat = NatTable::new();
    let outside = GlobalSource::Interface(Some(ip(203, 0, 113, 1)));
    nat.nat_outbound(outbound(1234), outside, true, &[], 0).unwrap();
    assert_eq!(nat.translate_nat_inbound(reply(ip(203, 0, 113, 1), 10_000), 59_999_999), Some((ip(10, 0, 0, 2), 1234)));
    assert_eq!(nat.translate_nat_inbound(reply(ip(203, 0, 113, 1), 10_000), 119_999_999), None);
    let stats = nat.nat_statistics();
    assert_eq!((stats.expired, stats.misses), (1, 1));
    assert!(nat.translations().is_empty());
}

#[test]
fn missing_outside_address_drops() {
    let mut nat = NatTable::new();
    assert_eq!(nat.nat_outbound(outbound(1234), GlobalSource::Interface(None), true, &[], 0), None);
    assert_eq!(nat.nat_statistics().drops, 1);
    assert_eq!(nat.nat_drop(), NatOutcome::Drop);
    assert_eq!(nat.nat_statistics().drops, 2);
}

#[test]
fn pools_keep_one_address_per_host_without_overload() {
    let mut nat = NatTable::new();
    let pool = GlobalSource::Pool(NatPool { first: ip(198, 51, 100, 10), last: ip(198, 51, 100, 11), prefix_len: 24 });
    let statics = [StaticNat::Address { local: ip(10, 0, 0, 50), global: ip(198, 51, 100, 10) }];
    let first = nat.nat_outbound(outbound(1234), pool, false, &statics, 0).unwrap();
    assert_eq!(first, (ip(198, 51, 100, 11), 1234));
    let again = nat.nat_outbound(outbound(2000), pool, false, &statics, 0).unwrap();
    assert_eq!(again, (ip(198, 51, 100, 11), 2000));
    let mut other = outbound(1234);
    other.address = ip(10, 0, 0, 3);
    assert_eq!(nat.nat_outbound(other, pool, false, &statics, 0), None);
    assert_eq!(nat.nat_statistics().drops, 1);
}

#[test]
fn owned_addresses_and_clearing() {
    let mut nat = NatTable::new();
    let statics = [StaticNat::Address { local: ip(10, 0, 0, 50), global: ip(198, 51, 100, 10) }];
    nat.nat_outbound(outbound(1234), GlobalSource::Interface(Some(ip(203, 0, 113, 1))), true, &[], 0).unwrap();
    assert!(nat.nat_owns_address(true, &statics, ip(198, 51, 100, 10), 0));
    assert!(nat.nat_owns_address(true, &statics, ip(203, 0, 113, 1), 0));
    assert!(!nat.nat_owns_address(false, &statics, ip(203, 0, 113, 1), 0));
    assert!(!nat.nat_owns_address(true, &statics, ip(203, 0, 113, 7), 0));
    nat.clear_nat_translations();
    assert!(!nat.nat_owns_address(true, &statics, ip(203, 0, 113, 1), 0));
}

#[test]
fn static_mappings_rewrite_addresses_and_ports() {
    let rules = [
        StaticNat::Port {
            protocol: NatTransport::Tcp,
            local: ip(10, 0, 0, 9),
            local_port: 8080,
            global: ip(203, 0, 113, 9),
            global_port: 80,
        },
        StaticNat::Address { local: ip(10, 0, 0, 9), global: ip(203, 0, 113, 19) },
    ];
    assert_eq!(
        static_translation(&rules, ip(10, 0, 0, 9), Some((NatProtocol::Tcp, 8080)), true),
        Some((ip(203, 0, 113, 9), Some(80)))
    );
    assert_eq!(
        static_translation(&rules, ip(10, 0, 0, 9), Some((NatProtocol::Udp, 8080)), true),
        Some((ip(203, 0, 113, 19), None))
    );
    assert_eq!(
        static_translation(&rules, ip(203, 0, 113, 9), Some((NatProtocol::Tcp, 80)), false),
        Some((ip(10, 0, 0, 9), Some(8080)))
    );
    assert_eq!(static_translation(&rules, ip(203, 0, 113, 9), Some((NatProtocol::Tcp, 81)), false), None);
    assert_eq!(static_translation(&rules, ip(10, 0, 0, 8), None, true), None);
}

fn web(local: Ipv4Addr, local_port: u16, global: Ipv4Addr, global_port: u16) -> StaticNat {
    StaticNat::Port { protocol: NatTransport::Tcp, local, local_port, global, global_port }
}

#[test]
fn static_mappings_are_validated_and_never_overlap() {
    let mut config = NatConfig::new();
    let mut table = NatTable::new();
    let outside = GlobalSource::Interface(Some(ip(203, 0, 113, 1)));
    table.nat_outbound(outbound(1234), outside, true, &[], 0).unwrap();
    let host = StaticNat::Address { local: ip(10, 0, 0, 50), global: ip(198, 51, 100, 50) };
    assert_eq!(config.add_static_nat(&mut table, host, false), Err(DeviceError::NatUnsupported));
    assert_eq!(config.add_static_nat(&mut table, web(ip(10, 0, 0, 9), 0, ip(203, 0, 113, 9), 80), true), Err(DeviceError::InvalidNatConfig));
    assert_eq!(table.translations().len(), 1);
    assert_eq!(config.add_static_nat(&mut table, host, true), Ok(()));
    assert!(table.translations().is_empty());
    table.nat_outbound(outbound(1234), outside, true, &[], 0).unwrap();
    assert_eq!(config.add_static_nat(&mut table, host, true), Ok(()));
    assert_eq!(table.translations().len(), 1);
    let clash = StaticNat::Address { local: ip(10, 0, 0, 50), global: ip(198, 51, 100, 51) };
    assert_eq!(config.add_static_nat(&mut table, clash, true), Err(DeviceError::InvalidNatConfig));
    assert_eq!(config.add_static_nat(&mut table, web(ip(10, 0, 0, 9), 80, ip(203, 0, 113, 9), 80), true), Ok(()));
    assert_eq!(config.add_static_nat(&mut table, web(ip(10, 0, 0, 9), 80, ip(203, 0, 113, 10), 8080), true), Err(DeviceError::InvalidNatConfig));
    assert_eq!(config.add_static_nat(&mut table, web(ip(10, 0, 0, 9), 443, ip(203, 0, 113, 9), 443), true), Ok(()));
    let udp = StaticNat::Port { protocol: NatTransport::Udp, local: ip(10, 0, 0, 9), local_port: 80, global: ip(203, 0, 113, 9), global_port: 80 };
    assert_eq!(config.add_static_nat(&mut table, udp, true), Ok(()));
    let multicast = StaticNat::Address { local: ip(10, 0, 0, 60), global: ip(224, 0, 0, 9) };
    assert_eq!(config.add_static_nat(&mut table, multicast, true), Err(DeviceError::InvalidNatConfig));
    assert_eq!(config.static_nat().len(), 4);
}

#[test]
fn pools_are_validated_by_subnet_and_size() {
    let mut config = NatConfig::new();
    let mut table = NatTable::new();
    let pool = NatPool { first: ip(198, 51, 100, 10), last: ip(198, 51, 100, 20), prefix_len: 24 };
    assert_eq!(config.set_nat_pool(&mut table, "PUBLIC", pool, false), Err(DeviceError::NatUnsupported));
    assert_eq!(config.set_nat_pool(&mut table, "bad name", pool, true), Err(DeviceError::InvalidNatConfig));
    assert_eq!(config.set_nat_pool(&mut table, "", pool, true), Err(DeviceError::InvalidNatConfig));
    let wide = NatPool { prefix_len: 33, ..pool };
    assert_eq!(config.set_nat_pool(&mut table, "PUBLIC", wide, true), Err(DeviceError::InvalidNatConfig));
    let backwards = NatPool { first: pool.last, last: pool.first, ..pool };
    assert_eq!(config.set_nat_pool(&mut table, "PUBLIC", backwards, true), Err(DeviceError::InvalidNatConfig));
    let elsewhere = NatPool { last: ip(198, 51, 101, 20), ..pool };
    assert_eq!(config.set_nat_pool(&mut table, "PUBLIC", elsewhere, true), Err(DeviceError::InvalidNatConfig));
    let network = NatPool { first: ip(198, 51, 100, 0), ..pool };
    assert_eq!(config.set_nat_pool(&mut table, "PUBLIC", network, true), Err(DeviceError::InvalidNatConfig));
    let huge = NatPool { first: ip(10, 0, 0, 1), last: ip(10, 1, 0, 2), prefix_len: 8 };
    assert_eq!(config.set_nat_pool(&mut table, "BIG", huge, true), Err(DeviceError::InvalidNatConfig));
    assert_eq!(config.set_nat_pool(&mut table, "PUBLIC", pool, true), Ok(()));
    assert_eq!(config.nat_pool("PUBLIC"), Some(pool));
    assert_eq!(config.nat_pool("public"), None);
    let link = NatPool { first: ip(198, 51, 100, 0), last: ip(198, 51, 100, 1), prefix_len: 31 };
    assert_eq!(config.set_nat_pool(&mut table, "PUBLIC", link, true), Ok(()));
    assert_eq!(config.nat_pool("PUBLIC"), Some(link));
}

fn permit_all(acls: &mut AclTable, number: u8) -> AccessListId {
    let id = AccessListId::new(number).unwrap();
    let entry = StandardAccessListEntry {
        action: AccessListAction::Permit,
        source: ip(10, 0, 0, 0),
        wildcard: ip(0, 0, 0, 255),
    };
    acls.add_access_list_entry(id, entry, &routing_device()).unwrap();
    id
}

#[test]
fn interface_roles_decide_inside_to_outside_crossings() {
    let mut config = NatConfig::new();
    assert_eq!(config.set_nat_role(false, true, InterfaceId(1), NatRole::Inside), Err(DeviceError::NatUnsupported));
    assert_eq!(config.set_nat_role(true, false, InterfaceId(1), NatRole::Inside), Err(DeviceError::MissingInterface));
    assert_eq!(config.nat_role(InterfaceId(1)), None);
    config.set_nat_role(true, true, InterfaceId(1), NatRole::Inside).unwrap();
    config.set_nat_role(true, true, InterfaceId(2), NatRole::Outside).unwrap();
    assert_eq!(config.nat_role(InterfaceId(1)), Some(NatRole::Inside));
    assert_eq!(config.nat_role(InterfaceId(2)), Some(NatRole::Outside));
    assert!(config.crosses_inside_out(InterfaceId(1), InterfaceId(2)));
    assert!(!config.crosses_inside_out(InterfaceId(2), InterfaceId(1)));
    assert!(!config.crosses_inside_out(InterfaceId(1), InterfaceId(3)));
    config.set_nat_role(true, true, InterfaceId(2), NatRole::Inside).unwrap();
    assert_eq!(config.nat_role(InterfaceId(2)), Some(NatRole::Inside));
    assert!(!config.crosses_inside_out(InterfaceId(1), InterfaceId(2)));
}

#[test]
fn overload_needs_a_defined_list_and_an_interface() {
    let mut config = NatConfig::new();
    let mut table = NatTable::new();
    let mut acls = AclTable::new();
    let undefined = AccessListId::new(5).unwrap();
    assert_eq!(
        config.set_nat_overload(&mut table, &acls, false, undefined, InterfaceId(2), true),
        Err(DeviceError::NatUnsupported)
    );
    assert_eq!(
        config.set_nat_overload(&mut table, &acls, true, undefined, InterfaceId(2), true),
        Err(DeviceError::InvalidNatConfig)
    );
    let id = permit_all(&mut acls, 1);
    assert_eq!(
        config.set_nat_overload(&mut table, &acls, true, id, InterfaceId(2), false),
        Err(DeviceError::InvalidNatConfig)
    );
    assert_eq!(config.dynamic_rule(InterfaceId(2)), None);
    assert_eq!(config.set_nat_overload(&mut table, &acls, true, id, InterfaceId(2), true), Ok(()));
    assert_eq!(config.dynamic_rule(InterfaceId(2)), Some((id, None, true)));
    assert_eq!(config.dynamic_rule(InterfaceId(3)), None);
}

#[test]
fn pool_rules_replace_overload_and_clear_translations() {
    let mut config = NatConfig::new();
    let mut table = NatTable::new();
    let mut acls = AclTable::new();
    let id = permit_all(&mut acls, 1);
    config.set_nat_overload(&mut table, &acls, true, id, InterfaceId(2), true).unwrap();
    let outside = GlobalSource::Interface(Some(ip(203, 0, 113, 1)));
    table.nat_outbound(outbound(1234), outside, true, &[], 0).unwrap();
    assert_eq!(table.translations().len(), 1);
    let rule = NatPoolRule { access_list: id, pool: String::from("PUBLIC"), overload: false };
    assert_eq!(config.set_nat_pool_rule(&mut table, &acls, true, rule.clone()), Err(DeviceError::InvalidNatConfig));
    assert_eq!(table.translations().len(), 1);
    let pool = NatPool { first: ip(198, 51, 100, 10), last: ip(198, 51, 100, 20), prefix_len: 24 };
    config.set_nat_pool(&mut table, "PUBLIC", pool, true).unwrap();
    table.nat_outbound(outbound(1234), outside, true, &[], 0).unwrap();
    assert_eq!(config.set_nat_pool_rule(&mut table, &acls, false, rule.clone()), Err(DeviceError::NatUnsupported));
    assert_eq!(config.set_nat_pool_rule(&mut table, &acls, true, rule), Ok(()));
    assert_eq!(table.translations().len(), 0);
    assert_eq!(config.dynamic_rule(InterfaceId(7)), Some((id, Some(pool), false)));
}

#[test]
fn lists_named_by_their_number_count_as_defined() {
    let mut acls = AclTable::new();
    let id = AccessListId::new(10).unwrap();
    assert!(!acls.list_known(id));
    acls.ensure_acl("10", AclKind::Standard, &routing_device()).unwrap();
    assert!(acls.list_known(id));
    assert!(!acls.list_known(AccessListId::new(11).unwrap()));
}

#[test]
fn statistics_report_counts_static_and_dynamic_translations() {
    let mut config = NatConfig::new();
    let mut table = NatTable::new();
    config
        .add_static_nat(&mut table, StaticNat::Address { local: ip(10, 0, 0, 9), global: ip(203, 0, 113, 9) }, true)
        .unwrap();
    let outside = GlobalSource::Interface(Some(ip(203, 0, 113, 1)));
    table.nat_outbound(outbound(1234), outside, true, &[], 0).unwrap();
    table.record_hit();
    assert_eq!(
        table.show_ip_nat_statistics(&config, 1_000),
        "Total active translations: 2 (1 static, 1 dynamic)\nHits: 1 Misses: 0 Allocations: 1 Expired: 0 Drops: 0\n"
    );
    assert_eq!(
        table.show_ip_nat_statistics(&config, 120_000_000),
        "Total active translations: 1 (1 static, 0 dynamic)\nHits: 1 Misses: 0 Allocations: 1 Expired: 1 Drops: 0\n"
    );
}

fn routing_device() -> rios::Device {
    rios::Device::new(rios::DeviceId(90), "R90", rios::DeviceType::Router).unwrap()
}
