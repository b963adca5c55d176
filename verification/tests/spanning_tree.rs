use rios::{
    AdminState, ConfigurationBpdu, Device, DeviceError, DeviceId, DeviceType, InterfaceId, LinkState,
    MacAddress, MacTable, SpanningTree, StpPortConfig, StpPortRole, StpPortState, VlanId,
};

const BRIDGE: u64 = 0x8001_0200_0001_0001;

fn vlan(n: u16) -> VlanId {
    VlanId::new(n).unwrap()
}

fn switch() -> (Device, InterfaceId, InterfaceId) {
    let mut sw = Device::new(DeviceId(1), "SW", DeviceType::Switch).unwrap();
    let a = sw.add_physical_interface("gi0/1").unwrap();
    let b = sw.add_physical_interface("gi0/2").unwrap();
    for port in [a, b] {
        sw.set_link_state(port, LinkState::Up).unwrap();
    }
    (sw, a, b)
}

fn superior(bridge_id: u64) -> ConfigurationBpdu {
    ConfigurationBpdu {
        root_id: 1,
        root_cost: 0,
        bridge_id,
        port_id: 0x8001,
    }
}

#[test]
fn bridge_identifier_combines_vlan_and_lowest_address() {
    let (sw, _, _) = switch();
    assert_eq!(sw.bridge_id(vlan(1)), Some(BRIDGE));
    assert_eq!(sw.bridge_id(vlan(10)), Some(0x800a_0200_0001_0001));
    let empty = Device::new(DeviceId(2), "SW2", DeviceType::Switch).unwrap();
    assert_eq!(empty.bridge_id(vlan(1)), None);
}

#[test]
fn a_bridge_that_hears_nothing_is_root_and_its_ports_start_listening() {
    let (sw, a, b) = switch();
    let mut stp = SpanningTree::new();
    let mut macs = MacTable::new();
    let bpdus = sw.stp_bpdus(&mut stp, &mut macs, 0);
    let own = |port_id| ConfigurationBpdu {
        root_id: BRIDGE,
        root_cost: 0,
        bridge_id: BRIDGE,
        port_id,
    };
    assert_eq!(
        bpdus,
        vec![(a, vlan(1), own(0x8001)), (b, vlan(1), own(0x8002))]
    );
    let tree = stp.instance(vlan(1)).unwrap();
    assert_eq!(tree.root_id, BRIDGE);
    assert_eq!(tree.root_cost, 0);
    assert_eq!(tree.root_port, None);
    assert!(!stp.stp_forwarding(a, vlan(1)));
    assert!(!stp.stp_forwarding(b, vlan(1)));
    assert!(!stp.stp_forwarding(a, vlan(2)));
    assert_eq!(
        stp.stp_port_states(),
        vec![
            (vlan(1), a, StpPortRole::Designated, StpPortState::Listening),
            (vlan(1), b, StpPortRole::Designated, StpPortState::Listening),
        ]
    );
    sw.refresh_spanning_tree(&mut stp, &mut macs, 30_000_000);
    assert!(stp.stp_forwarding(a, vlan(1)));
    assert!(stp.stp_forwarding(b, vlan(1)));
}

fn state_of(stp: &SpanningTree, port: InterfaceId) -> StpPortState {
    stp.stp_port_states()
        .into_iter()
        .find(|(v, p, _, _)| *v == vlan(1) && *p == port)
        .unwrap()
        .3
}

#[test]
fn classic_timers_and_edge_policy_control_forwarding() {
    let (sw, a, b) = switch();
    let mut stp = SpanningTree::new();
    let mut macs = MacTable::new();
    let edge = StpPortConfig {
        priority: 128,
        cost: None,
        portfast: true,
        root_guard: false,
        bpdu_guard: false,
    };
    sw.set_stp_port(&mut stp, b, edge).unwrap();
    for (seconds, state) in [
        (0, StpPortState::Listening),
        (15, StpPortState::Learning),
        (30, StpPortState::Forwarding),
    ] {
        sw.refresh_spanning_tree(&mut stp, &mut macs, seconds * 1_000_000);
        assert_eq!(state_of(&stp, a), state);
        assert!(stp.stp_forwarding(b, vlan(1)));
    }
}

#[test]
fn a_port_that_blocks_starts_over_when_it_may_forward_again() {
    let (sw, a, b) = switch();
    let mut stp = SpanningTree::new();
    let mut macs = MacTable::new();
    sw.refresh_spanning_tree(&mut stp, &mut macs, 0);
    sw.receive_stp(&mut stp, &mut macs, a, vlan(1), superior(1), 20_000_000);
    sw.receive_stp(&mut stp, &mut macs, b, vlan(1), superior(2), 20_000_000);
    assert_eq!(state_of(&stp, a), StpPortState::Learning);
    assert_eq!(state_of(&stp, b), StpPortState::Blocking);
    sw.refresh_spanning_tree(&mut stp, &mut macs, 30_000_000);
    assert_eq!(state_of(&stp, a), StpPortState::Forwarding);
    assert_eq!(state_of(&stp, b), StpPortState::Blocking);
    sw.refresh_spanning_tree(&mut stp, &mut macs, 40_000_000);
    assert_eq!(state_of(&stp, a), StpPortState::Forwarding);
    assert_eq!(state_of(&stp, b), StpPortState::Listening);
    sw.refresh_spanning_tree(&mut stp, &mut macs, 70_000_000);
    assert_eq!(state_of(&stp, b), StpPortState::Forwarding);
}

#[test]
fn a_superior_bpdu_elects_a_root_port_and_blocks_the_loop() {
    let (sw, a, b) = switch();
    let mut stp = SpanningTree::new();
    let mut macs = MacTable::new();
    sw.learn_mac(&mut macs, vlan(1), MacAddress([2, 0, 0, 0, 0, 9]), b, 0)
        .unwrap();
    sw.refresh_spanning_tree(&mut stp, &mut macs, 0);
    sw.receive_stp(&mut stp, &mut macs, a, vlan(1), superior(1), 0);
    let tree = stp.instance(vlan(1)).unwrap();
    assert_eq!(tree.root_id, 1);
    assert_eq!(tree.root_cost, 4);
    assert_eq!(tree.root_port, Some(a));
    assert_eq!(state_of(&stp, b), StpPortState::Listening);
    assert_eq!(macs.mac_entries(0).len(), 1);

    sw.receive_stp(&mut stp, &mut macs, b, vlan(1), superior(2), 0);
    assert_eq!(
        stp.stp_port_states(),
        vec![
            (vlan(1), a, StpPortRole::Root, StpPortState::Listening),
            (vlan(1), b, StpPortRole::Alternate, StpPortState::Blocking),
        ]
    );
    assert!(!stp.stp_forwarding(b, vlan(1)));
    assert!(macs.mac_entries(0).is_empty());
    let bpdus = sw.stp_bpdus(&mut stp, &mut macs, 1);
    assert!(bpdus.is_empty());
}

#[test]
fn heard_bpdus_expire_after_the_maximum_age() {
    let (sw, a, b) = switch();
    let mut stp = SpanningTree::new();
    let mut macs = MacTable::new();
    sw.receive_stp(&mut stp, &mut macs, a, vlan(1), superior(1), 1_000);
    sw.receive_stp(&mut stp, &mut macs, b, vlan(1), superior(2), 1_000);
    assert!(!stp.stp_forwarding(b, vlan(1)));
    sw.refresh_spanning_tree(&mut stp, &mut macs, 1_000 + 20_000_000 - 1);
    assert!(!stp.stp_forwarding(b, vlan(1)));
    sw.refresh_spanning_tree(&mut stp, &mut macs, 1_000 + 20_000_000);
    let tree = stp.instance(vlan(1)).unwrap();
    assert_eq!(tree.root_id, BRIDGE);
    assert_eq!(tree.root_port, None);
    assert!(tree.received.is_empty());
    assert_eq!(state_of(&stp, b), StpPortState::Listening);
    sw.refresh_spanning_tree(&mut stp, &mut macs, 1_000 + 50_000_000);
    assert!(stp.stp_forwarding(b, vlan(1)));
}

#[test]
fn own_and_foreign_bpdus_are_ignored() {
    let (sw, a, _) = switch();
    let mut stp = SpanningTree::new();
    let mut macs = MacTable::new();
    let own = ConfigurationBpdu {
        root_id: 1,
        root_cost: 0,
        bridge_id: BRIDGE,
        port_id: 0x8001,
    };
    sw.receive_stp(&mut stp, &mut macs, a, vlan(1), own, 0);
    assert!(stp.instance(vlan(1)).is_none());
    sw.receive_stp(&mut stp, &mut macs, InterfaceId(9), vlan(1), superior(1), 0);
    sw.receive_stp(&mut stp, &mut macs, a, vlan(20), superior(1), 0);
    assert!(stp.instance(vlan(1)).is_none());
    assert!(stp.instance(vlan(20)).is_none());
}

#[test]
fn trees_follow_vlan_membership() {
    let (mut sw, a, b) = switch();
    let mut stp = SpanningTree::new();
    let mut macs = MacTable::new();
    sw.create_vlan(vlan(10)).unwrap();
    sw.set_access_vlan(b, vlan(10)).unwrap();
    sw.refresh_spanning_tree(&mut stp, &mut macs, 0);
    assert_eq!(
        stp.stp_port_states(),
        vec![
            (vlan(1), a, StpPortRole::Designated, StpPortState::Listening),
            (vlan(10), b, StpPortRole::Designated, StpPortState::Listening),
        ]
    );
    sw.set_link_state(b, LinkState::Down).unwrap();
    sw.refresh_spanning_tree(&mut stp, &mut macs, 0);
    assert!(stp.instance(vlan(10)).is_none());
    assert!(!stp.stp_forwarding(b, vlan(10)));

    let router = Device::standalone();
    let mut other = SpanningTree::new();
    router.refresh_spanning_tree(&mut other, &mut macs, 0);
    assert!(other.stp_port_states().is_empty());
}

#[test]
fn forgetting_a_port_drops_what_it_heard() {
    let (sw, a, b) = switch();
    let mut stp = SpanningTree::new();
    let mut macs = MacTable::new();
    sw.receive_stp(&mut stp, &mut macs, a, vlan(1), superior(1), 0);
    stp.forget_port(a, false);
    assert!(stp.instance(vlan(1)).unwrap().received.is_empty());
    assert_eq!(stp.instance(vlan(1)).unwrap().ports.len(), 2);
    stp.forget_port(b, true);
    assert_eq!(stp.instance(vlan(1)).unwrap().ports.len(), 1);
    sw.refresh_spanning_tree(&mut stp, &mut macs, 0);
    assert_eq!(stp.instance(vlan(1)).unwrap().root_port, None);
    assert_eq!(stp.instance(vlan(1)).unwrap().ports.len(), 2);
}

#[test]
fn spanning_tree_settings_are_validated() {
    let (sw, a, _) = switch();
    let mut stp = SpanningTree::new();
    assert_eq!(sw.set_stp_priority(&mut stp, vlan(1), 4097), Err(DeviceError::InvalidSpanningTree));
    sw.set_stp_priority(&mut stp, vlan(1), 24576).unwrap();
    assert_eq!(stp.priority(vlan(1)), Some(24576));
    assert_eq!(stp.priority(vlan(2)), None);
    let policy = StpPortConfig {
        priority: 128,
        cost: Some(19),
        portfast: true,
        root_guard: false,
        bpdu_guard: false,
    };
    sw.set_stp_port(&mut stp, a, policy).unwrap();
    assert_eq!(stp.port_policy(a), Some(policy));
    for bad in [
        StpPortConfig { priority: 100, ..policy },
        StpPortConfig { cost: Some(0), ..policy },
        StpPortConfig { cost: Some(200_000_001), ..policy },
    ] {
        assert_eq!(sw.set_stp_port(&mut stp, a, bad), Err(DeviceError::InvalidSpanningTree));
    }
    assert_eq!(
        sw.set_stp_port(&mut stp, InterfaceId(9), policy),
        Err(DeviceError::InvalidSpanningTree)
    );
    let mut macs = MacTable::new();
    sw.refresh_spanning_tree(&mut stp, &mut macs, 0);
    sw.set_stp_rapid(&mut stp, true).unwrap();
    assert!(stp.is_rapid());
    assert!(stp.stp_port_states().is_empty());

    let router = Device::standalone();
    assert_eq!(
        router.set_stp_priority(&mut stp, vlan(1), 4096),
        Err(DeviceError::InvalidSpanningTree)
    );
    assert_eq!(router.set_stp_rapid(&mut stp, false), Err(DeviceError::InvalidSpanningTree));
}

#[test]
fn port_cost_and_root_guard_change_the_selection() {
    let (sw, a, _) = switch();
    let mut stp = SpanningTree::new();
    let mut macs = MacTable::new();
    assert!(sw.set_stp_priority(&mut stp, vlan(1), 123).is_err());
    sw.set_stp_priority(&mut stp, vlan(1), 24576).unwrap();
    let guarded = StpPortConfig {
        priority: 64,
        cost: Some(99),
        portfast: false,
        root_guard: true,
        bpdu_guard: false,
    };
    sw.set_stp_port(&mut stp, a, guarded).unwrap();
    sw.receive_stp(&mut stp, &mut macs, a, vlan(1), superior(1), 0);
    assert!(!stp.stp_forwarding(a, vlan(1)));
    assert_eq!(state_of(&stp, a), StpPortState::Blocking);
    assert_eq!(stp.instance(vlan(1)).unwrap().root_port, None);
    assert_eq!(stp.instance(vlan(1)).unwrap().root_id, BRIDGE);
    sw.set_stp_port(&mut stp, a, StpPortConfig { root_guard: false, ..guarded }).unwrap();
    sw.receive_stp(&mut stp, &mut macs, a, vlan(1), superior(1), 1);
    let tree = stp.instance(vlan(1)).unwrap();
    assert_eq!(tree.root_port, Some(a));
    assert_eq!(tree.root_cost, 99);
}

#[test]
fn bpdu_guard_err_disables_the_port_until_it_is_shut_and_reopened() {
    let (mut sw, a, b) = switch();
    let mut stp = SpanningTree::new();
    let mut macs = MacTable::new();
    let guarded = StpPortConfig {
        priority: 128,
        cost: None,
        portfast: true,
        root_guard: false,
        bpdu_guard: true,
    };
    sw.set_stp_port(&mut stp, a, guarded).unwrap();
    sw.refresh_spanning_tree(&mut stp, &mut macs, 0);
    let before = stp.clone();
    assert!(sw.receive_stp_packet(&mut stp, &mut macs, a, vlan(1), superior(1), 1));
    assert_eq!(sw.interface(a).unwrap().1.admin_state, AdminState::ErrDisabled);
    assert!(!sw.protocol_up(a));
    assert_eq!(stp.instance(vlan(1)), before.instance(vlan(1)));
    assert!(!sw.receive_stp_packet(&mut stp, &mut macs, b, vlan(1), superior(1), 2));
    assert_eq!(stp.instance(vlan(1)).unwrap().root_port, Some(b));
    sw.set_admin_state(a, AdminState::Down).unwrap();
    sw.set_admin_state(a, AdminState::Up).unwrap();
    assert!(sw.protocol_up(a));
}
