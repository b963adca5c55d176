//! The device model: identity and class, the interface inventory with its running
//! configuration, the VLAN database, Layer 2 switchports, port channels and subinterfaces,
//! and the line-protocol state that derives from them.
use crate::device::{
    counted_drop, counted_frame, hostname_valid, validate_hostname, zero_counters, CountersView,
    DeviceError, DeviceType, DropReason, InterfaceCounters, InterfaceKind, InterfaceMedia,
};
use crate::frame::{untag_fields, EtherType, EthernetFrame};
use crate::interface_name::{canonical_error_text, canonical_interface, canonical_spec, lower, lower_char};
use crate::ipv4::Ipv4InterfaceConfig;
use crate::keyed::{has_key, key_index, keys_unique, lemma_key_index, lemma_put_unique, lemma_without_unique, put, value_of, without};
use crate::mac::{MacAddress, VlanId};
use crate::routing::InterfaceId;
use crate::switching::{mac_learn_spec, mac_table_wf, MacTable};
use crate::dhcp::{DhcpLease, DhcpLeases};
use vstd::prelude::*;
use vstd::string::StringSliceAdditionalSpecFns;

verus! {

/// Largest device identifier.
pub const MAX_DEVICE_ID: u64 = 0xff_ffff;

/// Largest interface identifier.
pub const MAX_INTERFACE_ID: u64 = 65535;

/// MTU of a new interface.
pub const DEFAULT_MTU: u16 = 1500;

/// Longest interface description, in characters.
pub const MAX_DESCRIPTION: usize = 240;

/// The identifier of a device in a lab.
#[derive(Debug, Clone, Copy, PartialEq, Eq, PartialOrd, Ord, Hash, Structural)]
pub struct DeviceId(pub u64);

/// Physical carrier state.
#[derive(Debug, Clone, Copy, PartialEq, Eq, Structural)]
pub enum LinkState {
    Up,
    Down,
}

/// Administrative state of an interface: enabled, shut down by the operator, or shut down
/// by a protection (BPDU guard) until the operator shuts it down and enables it again.
#[derive(Debug, Clone, Copy, PartialEq, Eq, Structural)]
pub enum AdminState {
    Up,
    Down,
    ErrDisabled,
}

/// Access or trunk switchport.
#[derive(Debug, Clone, Copy, PartialEq, Eq, Structural)]
pub enum SwitchportMode {
    Access,
    Trunk,
}

/// How a member joins a port channel: statically, or by LACP.
#[derive(Debug, Clone, Copy, PartialEq, Eq, Structural)]
pub enum ChannelMode {
    On,
    Active,
    Passive,
}

/// Membership of a physical port in a port channel.
#[derive(Debug, Clone, Copy, PartialEq, Eq, Structural)]
pub struct ChannelMembership {
    pub number: u16,
    pub mode: ChannelMode,
}

/// The 802.1Q encapsulation of a routed subinterface.
#[derive(Debug, Clone, Copy, PartialEq, Eq)]
pub struct Dot1qEncapsulation {
    pub vlan: VlanId,
    pub native: bool,
}

/// Layer 2 configuration of a switchport.
#[derive(Debug, Clone, PartialEq, Eq)]
pub struct SwitchportConfig {
    pub mode: SwitchportMode,
    pub access_vlan: VlanId,
    pub native_vlan: VlanId,
    pub trunk_allowed_vlans: Option<Vec<VlanId>>,
}

/// A switchport configuration as a mathematical value; the allowed VLANs form a set.
#[verifier::ext_equal]
pub struct SwitchportView {
    pub mode: SwitchportMode,
    pub access_vlan: u16,
    pub native_vlan: u16,
    pub allowed: Option<Set<u16>>,
}

/// The set of VLAN numbers in a list.
pub open spec fn vlan_set(s: Seq<VlanId>) -> Set<u16> {
    Set::new(|x: u16| exists|i: int| 0 <= i < s.len() && (#[trigger] s[i])@ == x)
}

impl View for SwitchportConfig {
    type V = SwitchportView;

    open spec fn view(&self) -> SwitchportView {
        SwitchportView {
            mode: self.mode,
            access_vlan: self.access_vlan@,
            native_vlan: self.native_vlan@,
            allowed: match &self.trunk_allowed_vlans {
                Some(v) => Some(vlan_set(v@)),
                None => None,
            },
        }
    }
}

/// An access port in VLAN 1 with native VLAN 1 and every VLAN allowed on a trunk.
pub open spec fn default_switchport() -> SwitchportView {
    SwitchportView { mode: SwitchportMode::Access, access_vlan: 1, native_vlan: 1, allowed: None }
}

/// Runtime state of an interface; its configuration is kept beside it.
#[derive(Debug, Clone, Copy, PartialEq, Eq)]
pub struct Interface {
    pub id: InterfaceId,
    pub kind: InterfaceKind,
    pub media: InterfaceMedia,
    pub mac_address: MacAddress,
    pub link_state: LinkState,
}

/// Running configuration of an interface.
#[derive(Debug, Clone, PartialEq, Eq)]
pub struct InterfaceConfig {
    pub name: String,
    pub description: String,
    pub admin_state: AdminState,
    pub ipv4: Option<Ipv4InterfaceConfig>,
    pub dhcp_client: bool,
    pub mtu: u16,
    pub switchport_capable: bool,
    pub switchport: Option<SwitchportConfig>,
    pub parent: Option<InterfaceId>,
    pub dot1q: Option<Dot1qEncapsulation>,
    pub channel_group: Option<ChannelMembership>,
    pub port_channel: Option<u16>,
}

/// An interface configuration as a mathematical value.
#[verifier::ext_equal]
pub struct InterfaceConfigView {
    pub name: Seq<char>,
    pub description: Seq<char>,
    pub admin_state: AdminState,
    pub ipv4: Option<(u32, u8)>,
    pub dhcp_client: bool,
    pub mtu: u16,
    pub switchport_capable: bool,
    pub switchport: Option<SwitchportView>,
    pub parent: Option<InterfaceId>,
    pub dot1q: Option<(u16, bool)>,
    pub channel_group: Option<ChannelMembership>,
    pub port_channel: Option<u16>,
}

impl View for InterfaceConfig {
    type V = InterfaceConfigView;

    open spec fn view(&self) -> InterfaceConfigView {
        InterfaceConfigView {
            name: self.name@,
            description: self.description@,
            admin_state: self.admin_state,
            ipv4: match self.ipv4 {
                Some(c) => Some(c@),
                None => None,
            },
            dhcp_client: self.dhcp_client,
            mtu: self.mtu,
            switchport_capable: self.switchport_capable,
            switchport: match &self.switchport {
                Some(s) => Some(s@),
                None => None,
            },
            parent: self.parent,
            dot1q: match self.dot1q {
                Some(d) => Some((d.vlan@, d.native)),
                None => None,
            },
            channel_group: self.channel_group,
            port_channel: self.port_channel,
        }
    }
}

/// A simulated device: its identity and class, hostname, interfaces numbered 1, 2, ... in
/// creation order with their configuration, and its VLAN database.
#[derive(Debug, Clone, PartialEq, Eq)]
pub struct Device {
    id: DeviceId,
    device_type: DeviceType,
    hostname: String,
    ip_routing: bool,
    interfaces: Vec<(Interface, InterfaceConfig)>,
    counters: Vec<InterfaceCounters>,
    vlans: Vec<(VlanId, String)>,
    startup: Option<RunningConfig>,
}

/// A saved copy of the configuration a device runs: hostname, routing switch, the
/// configuration of each interface in interface order, and the VLAN database.
#[derive(Debug, Clone, PartialEq, Eq)]
pub struct RunningConfig {
    pub hostname: String,
    pub ip_routing: bool,
    pub interfaces: Vec<InterfaceConfig>,
    pub vlans: Vec<(VlanId, String)>,
}

/// A saved configuration as a mathematical value.
#[verifier::ext_equal]
pub struct RunningConfigView {
    pub hostname: Seq<char>,
    pub ip_routing: bool,
    pub interfaces: Seq<InterfaceConfigView>,
    pub vlans: Seq<(u16, Seq<char>)>,
}

impl View for RunningConfig {
    type V = RunningConfigView;

    open spec fn view(&self) -> RunningConfigView {
        RunningConfigView {
            hostname: self.hostname@,
            ip_routing: self.ip_routing,
            interfaces: self.interfaces@.map_values(|c: InterfaceConfig| c@),
            vlans: vlans_view(self.vlans@),
        }
    }
}

/// A device as a mathematical value.
#[verifier::ext_equal]
pub struct DeviceView {
    pub id: DeviceId,
    pub device_type: DeviceType,
    pub hostname: Seq<char>,
    pub ip_routing: bool,
    pub interfaces: Seq<(Interface, InterfaceConfigView)>,
    pub counters: Seq<CountersView>,
    pub vlans: Seq<(u16, Seq<char>)>,
    pub startup: Option<RunningConfigView>,
}

/// The configuration a device runs.
pub open spec fn running_view(v: DeviceView) -> RunningConfigView {
    RunningConfigView {
        hostname: v.hostname,
        ip_routing: v.ip_routing,
        interfaces: v.interfaces.map_values(|e: (Interface, InterfaceConfigView)| e.1),
        vlans: v.vlans,
    }
}

/// Interfaces as mathematical values.
pub open spec fn interfaces_view(s: Seq<(Interface, InterfaceConfig)>) -> Seq<(Interface, InterfaceConfigView)> {
    s.map_values(|e: (Interface, InterfaceConfig)| (e.0, e.1@))
}

/// The VLAN database as mathematical values.
pub open spec fn vlans_view(s: Seq<(VlanId, String)>) -> Seq<(u16, Seq<char>)> {
    s.map_values(|e: (VlanId, String)| (e.0@, e.1@))
}

impl View for Device {
    type V = DeviceView;

    closed spec fn view(&self) -> DeviceView {
        DeviceView {
            id: self.id,
            device_type: self.device_type,
            hostname: self.hostname@,
            ip_routing: self.ip_routing,
            interfaces: interfaces_view(self.interfaces@),
            counters: self.counters@.map_values(|c: InterfaceCounters| c@),
            vlans: vlans_view(self.vlans@),
            startup: match &self.startup {
                Some(c) => Some(c@),
                None => None,
            },
        }
    }
}

/// A device whose interfaces are numbered 1, 2, ... within the identifier limit and whose
/// VLAN database holds each VLAN once.
pub open spec fn device_wf(v: DeviceView) -> bool {
    &&& v.interfaces.len() <= MAX_INTERFACE_ID
    &&& v.counters.len() == v.interfaces.len()
    &&& forall|i: int| 0 <= i < v.interfaces.len() ==> (#[trigger] v.interfaces[i]).0.id.0 == i + 1
    &&& keys_unique(v.vlans)
}

/// Whether the device class bridges Ethernet switchports.
pub open spec fn switching(t: DeviceType) -> bool {
    t == DeviceType::Switch || t == DeviceType::Layer3Switch
}

/// Whether the device class routes IPv4.
pub open spec fn routing(t: DeviceType) -> bool {
    t == DeviceType::Router || t == DeviceType::Layer3Switch
}

/// Whether an interface kind carries Ethernet frames through virtual links.
pub open spec fn ethernet(k: InterfaceKind) -> bool {
    k == InterfaceKind::GigabitEthernet || k == InterfaceKind::TenGigabitEthernet
}

/// Whether an interface kind is installed hardware.
pub open spec fn physical(k: InterfaceKind) -> bool {
    !(k == InterfaceKind::Loopback || k == InterfaceKind::Vlan || k == InterfaceKind::EthernetSubinterface || k
        == InterfaceKind::PortChannel)
}

/// Where interface `id` is.
pub open spec fn slot(v: DeviceView, id: InterfaceId) -> Option<int> {
    if 1 <= id.0 <= v.interfaces.len() {
        Some(id.0 - 1)
    } else {
        None
    }
}

/// Whether two names are equal ignoring ASCII case.
pub open spec fn same_name(a: Seq<char>, b: Seq<char>) -> bool {
    &&& a.len() == b.len()
    &&& forall|i: int| 0 <= i < a.len() ==> lower(#[trigger] a[i]) == lower(b[i])
}

/// Whether interface `i` is the first whose name is `name`, ignoring ASCII case.
pub open spec fn first_named(v: DeviceView, name: Seq<char>, i: int) -> bool {
    &&& 0 <= i < v.interfaces.len()
    &&& same_name(v.interfaces[i].1.name, name)
    &&& forall|j: int| 0 <= j < i ==> !same_name((#[trigger] v.interfaces[j]).1.name, name)
}

/// The interface whose name is `name`, ignoring ASCII case.
pub open spec fn find_spec(v: DeviceView, name: Seq<char>) -> Option<InterfaceId> {
    if exists|i: int| first_named(v, name, i) {
        Some(InterfaceId(((choose|i: int| first_named(v, name, i)) + 1) as u64))
    } else {
        None
    }
}

/// The hardware address of port `port` of device `device`: locally administered, with the
/// low three bytes of the device and the low two bytes of the port.
pub open spec fn mac_for(device: u64, port: u64) -> MacAddress {
    MacAddress(
        [
            2u8,
            ((device / 65536) % 256) as u8,
            ((device / 256) % 256) as u8,
            (device % 256) as u8,
            ((port / 256) % 256) as u8,
            (port % 256) as u8,
        ],
    )
}

/// The configuration of a new interface: on a switching device an Ethernet port starts as
/// an enabled access switchport, any other interface starts shut down and routed.
pub open spec fn fresh_config(name: Seq<char>, kind: InterfaceKind, t: DeviceType) -> InterfaceConfigView {
    let l2 = switching(t) && ethernet(kind);
    InterfaceConfigView {
        name,
        description: Seq::empty(),
        admin_state: if l2 {
            AdminState::Up
        } else {
            AdminState::Down
        },
        ipv4: None,
        dhcp_client: false,
        mtu: DEFAULT_MTU,
        switchport_capable: l2,
        switchport: if l2 {
            Some(default_switchport())
        } else {
            None
        },
        parent: None,
        dot1q: None,
        channel_group: None,
        port_channel: None,
    }
}

/// Why a request fails: an invalid interface name (with its text), or another error.
pub enum Failure {
    Invalid(Seq<char>),
    Other(DeviceError),
}

/// Whether `e` is the error that `f` describes.
pub open spec fn reports(e: DeviceError, f: Failure) -> bool {
    match f {
        Failure::Invalid(t) => e matches DeviceError::InvalidInterface(s) && s@ == t,
        Failure::Other(d) => e == d,
    }
}

/// Whether a call that left the device as `after` and returned `r` did what `expected`
/// describes.
pub open spec fn outcome<T>(after: DeviceView, r: Result<T, DeviceError>, expected: (DeviceView, Result<T, Failure>)) -> bool {
    &&& after == expected.0
    &&& match r {
        Ok(x) => expected.1 == Ok::<T, Failure>(x),
        Err(e) => expected.1 matches Err(f) && reports(e, f),
    }
}

/// The state and result of adding interface `name` of `kind` with `media`: an interface
/// with that name is returned as it is; otherwise the next identifier is used, and an
/// identifier past the limit refuses the name.
pub open spec fn insert_spec(v: DeviceView, name: Seq<char>, kind: InterfaceKind, media: InterfaceMedia) -> (
    DeviceView,
    Result<InterfaceId, Failure>,
) {
    match find_spec(v, name) {
        Some(id) => (v, Ok(id)),
        None => {
            let next = v.interfaces.len() + 1;
            if next > MAX_INTERFACE_ID {
                (v, Err(Failure::Invalid(name)))
            } else {
                let id = InterfaceId(next as u64);
                let iface = Interface {
                    id,
                    kind,
                    media,
                    mac_address: mac_for(v.id.0, next as u64),
                    link_state: LinkState::Down,
                };
                (
                    DeviceView {
                        interfaces: v.interfaces.push((iface, fresh_config(name, kind, v.device_type))),
                        counters: v.counters.push(zero_counters()),
                        ..v
                    },
                    Ok(id),
                )
            }
        },
    }
}

/// The media a physical kind gets when added without one.
pub open spec fn default_media(kind: InterfaceKind) -> InterfaceMedia {
    match kind {
        InterfaceKind::GigabitEthernet => InterfaceMedia::Rj45,
        InterfaceKind::TenGigabitEthernet => InterfaceMedia::SfpPlus,
        InterfaceKind::Serial => InterfaceMedia::Serial,
        _ => InterfaceMedia::Console,
    }
}

/// Whether hardware of `kind` may present `media`.
pub open spec fn media_fits(kind: InterfaceKind, media: InterfaceMedia) -> bool {
    ||| kind == InterfaceKind::GigabitEthernet && (media == InterfaceMedia::Rj45 || media == InterfaceMedia::Sfp)
    ||| kind == InterfaceKind::TenGigabitEthernet && media == InterfaceMedia::SfpPlus
    ||| kind == InterfaceKind::Serial && media == InterfaceMedia::Serial
    ||| kind == InterfaceKind::Console && media == InterfaceMedia::Console
}

/// The state and result of adding hardware named `input` with its default media.
pub open spec fn add_physical_spec(v: DeviceView, input: Seq<char>) -> (DeviceView, Result<InterfaceId, Failure>) {
    match canonical_spec(input) {
        None => (v, Err(Failure::Invalid(canonical_error_text(input)))),
        Some((name, kind)) => if !physical(kind) {
            (v, Err(Failure::Invalid(input)))
        } else {
            insert_spec(v, name, kind, default_media(kind))
        },
    }
}

/// The state and result of adding hardware named `input` with `media`.
pub open spec fn add_port_spec(v: DeviceView, input: Seq<char>, media: InterfaceMedia) -> (
    DeviceView,
    Result<InterfaceId, Failure>,
) {
    match canonical_spec(input) {
        None => (v, Err(Failure::Invalid(canonical_error_text(input)))),
        Some((name, kind)) => if !media_fits(kind, media) {
            (v, Err(Failure::Invalid(input)))
        } else {
            insert_spec(v, name, kind, media)
        },
    }
}

/// The device after replacing the configuration of interface slot `i`.
pub open spec fn with_config(v: DeviceView, i: int, c: InterfaceConfigView) -> DeviceView {
    DeviceView { interfaces: v.interfaces.update(i, (v.interfaces[i].0, c)), ..v }
}

/// A description: at most 240 characters, none of them a control character.
pub open spec fn description_ok(text: Seq<char>) -> bool {
    &&& text.len() <= MAX_DESCRIPTION
    &&& forall|i: int| 0 <= i < text.len() ==> !crate::acl::is_control(#[trigger] text[i])
}

/// Whitespace in the sense of `char::is_whitespace` for the characters a description may
/// hold.
pub open spec fn is_blank(c: char) -> bool {
    crate::interface_name::is_space(c)
}

/// The text without leading and trailing whitespace.
pub open spec fn trim(t: Seq<char>) -> Seq<char>
    decreases t.len(),
{
    if t.len() > 0 && is_blank(t[0]) {
        trim(t.drop_first())
    } else if t.len() > 0 && is_blank(t.last()) {
        trim(t.drop_last())
    } else {
        t
    }
}

/// The state and result of describing interface `id` with `text`, trimmed.
pub open spec fn describe_spec(v: DeviceView, id: InterfaceId, text: Seq<char>) -> (DeviceView, Result<(), Failure>) {
    if !description_ok(text) {
        (v, Err(Failure::Other(DeviceError::InvalidDescription)))
    } else {
        match slot(v, id) {
            None => (v, Err(Failure::Other(DeviceError::MissingInterface))),
            Some(i) => (with_config(v, i, InterfaceConfigView { description: trim(text), ..v.interfaces[i].1 }), Ok(())),
        }
    }
}

/// The VLAN database after adding `vlan` when absent, with an empty name.
pub open spec fn with_vlan(s: Seq<(u16, Seq<char>)>, vlan: u16) -> Seq<(u16, Seq<char>)> {
    if has_key(s, vlan) {
        s
    } else {
        s.push((vlan, Seq::empty()))
    }
}

/// A VLAN name: 1 to 32 printable non-space ASCII characters.
pub open spec fn vlan_name_ok(bytes: Seq<u8>) -> bool {
    &&& 1 <= bytes.len() <= 32
    &&& forall|i: int| 0 <= i < bytes.len() ==> 0x21 <= #[trigger] bytes[i] <= 0x7e
}

/// The device as first built: the given identity, class and hostname, no interfaces, and
/// VLAN 1 on a switching device.
pub open spec fn initial_device(id: DeviceId, hostname: Seq<char>, t: DeviceType) -> DeviceView {
    DeviceView {
        id,
        device_type: t,
        hostname,
        ip_routing: false,
        interfaces: Seq::empty(),
        counters: Seq::empty(),
        vlans: if switching(t) {
            seq![(1u16, Seq::<char>::empty())]
        } else {
            Seq::empty()
        },
        startup: None,
    }
}

/// Whether interface slot `i` is a member of bundle `number`.
pub open spec fn in_bundle(c: InterfaceConfigView, number: u16) -> bool {
    c.channel_group matches Some(g) && g.number == number
}

/// The device after copying the switchport configuration of the port channel `id` onto
/// every member of its bundle; unchanged when `id` is no port channel.
pub open spec fn synced(v: DeviceView, id: InterfaceId) -> DeviceView {
    match slot(v, id) {
        None => v,
        Some(i) => match v.interfaces[i].1.port_channel {
            None => v,
            Some(n) => DeviceView {
                interfaces: Seq::new(
                    v.interfaces.len(),
                    |j: int|
                        if in_bundle(v.interfaces[j].1, n) {
                            (v.interfaces[j].0, InterfaceConfigView { switchport: v.interfaces[i].1.switchport, ..v.interfaces[j].1 })
                        } else {
                            v.interfaces[j]
                        },
                ),
                ..v
            },
        },
    }
}

/// Whether interface `i` is the first port channel numbered `number`.
pub open spec fn first_bundle(v: DeviceView, number: u16, i: int) -> bool {
    &&& 0 <= i < v.interfaces.len()
    &&& v.interfaces[i].1.port_channel == Some(number)
    &&& forall|j: int| 0 <= j < i ==> (#[trigger] v.interfaces[j]).1.port_channel != Some(number)
}

/// The port channel a member belongs to.
pub open spec fn channel_spec(v: DeviceView, member: InterfaceId) -> Option<InterfaceId> {
    match slot(v, member) {
        None => None,
        Some(i) => match v.interfaces[i].1.channel_group {
            None => None,
            Some(g) => if exists|k: int| first_bundle(v, g.number, k) {
                Some(InterfaceId(((choose|k: int| first_bundle(v, g.number, k)) + 1) as u64))
            } else {
                None
            },
        },
    }
}

/// The device, leases and result of making interface `id` a DHCP client.
pub open spec fn dhcp_client_spec(v: DeviceView, l: Seq<(InterfaceId, DhcpLease)>, id: InterfaceId) -> (
    DeviceView,
    Seq<(InterfaceId, DhcpLease)>,
    Result<(), DeviceError>,
) {
    if !(v.device_type == DeviceType::Router || v.device_type == DeviceType::Host || v.device_type
        == DeviceType::Layer3Switch) {
        (v, l, Err(DeviceError::DhcpUnsupported))
    } else {
        match slot(v, id) {
            None => (v, l, Err(DeviceError::MissingInterface)),
            Some(i) => {
                let (iface, c) = v.interfaces[i];
                if iface.kind == InterfaceKind::Serial || iface.kind == InterfaceKind::Console {
                    (v, l, Err(DeviceError::UnsupportedIpv4Interface))
                } else {
                    (
                        with_config(v, i, InterfaceConfigView { ipv4: None, dhcp_client: true, ..c }),
                        if c.dhcp_client {
                            l
                        } else {
                            crate::keyed::without(l, id)
                        },
                        Ok(()),
                    )
                }
            },
        }
    }
}

/// The state and result of giving interface `id` the address `ip`: refused on serial and
/// console ports, on bundle members and on switchports; it ends DHCP addressing.
pub open spec fn set_ipv4_spec(v: DeviceView, id: InterfaceId, ip: (u32, u8)) -> (DeviceView, Result<(), Failure>) {
    match slot(v, id) {
        None => (v, Err(Failure::Other(DeviceError::MissingInterface))),
        Some(i) => {
            let (iface, c) = v.interfaces[i];
            if iface.kind == InterfaceKind::Serial || iface.kind == InterfaceKind::Console {
                (v, Err(Failure::Other(DeviceError::UnsupportedIpv4Interface)))
            } else if channel_spec(v, id) is Some {
                (v, Err(Failure::Other(DeviceError::InvalidChannel)))
            } else if c.switchport is Some {
                (v, Err(Failure::Other(DeviceError::NotRoutedPort)))
            } else {
                (with_config(v, i, InterfaceConfigView { ipv4: Some(ip), dhcp_client: false, ..c }), Ok(()))
            }
        },
    }
}

/// The device after a configuration edit of interface `id` by `f`, or the missing-interface
/// error.
pub open spec fn edit_spec(v: DeviceView, id: InterfaceId, f: spec_fn(InterfaceConfigView) -> InterfaceConfigView) -> (
    DeviceView,
    Result<(), Failure>,
) {
    match slot(v, id) {
        None => (v, Err(Failure::Other(DeviceError::MissingInterface))),
        Some(i) => (with_config(v, i, f(v.interfaces[i].1)), Ok(())),
    }
}

/// Whether interface `id` is a switchport.
pub open spec fn l2_spec(v: DeviceView, id: InterfaceId) -> bool {
    match slot(v, id) {
        Some(i) => v.interfaces[i].1.switchport is Some,
        None => false,
    }
}

/// Whether interface `id` may be a switchport: an Ethernet port or a port channel.
pub open spec fn bridgeable(v: DeviceView, id: InterfaceId) -> bool {
    match slot(v, id) {
        Some(i) => ethernet(v.interfaces[i].0.kind) || v.interfaces[i].0.kind == InterfaceKind::PortChannel,
        None => false,
    }
}

/// The state and result of making interface `id` a switchport: its addressing goes away,
/// an existing switchport configuration is kept, and a port channel passes its
/// configuration to its members.
pub open spec fn enable_spec(v: DeviceView, id: InterfaceId) -> (DeviceView, Result<(), Failure>) {
    if !switching(v.device_type) || !bridgeable(v, id) {
        (v, Err(Failure::Other(DeviceError::NotSwitchport)))
    } else {
        let i = id.0 - 1;
        let c = v.interfaces[i].1;
        let sp = match c.switchport {
            Some(s) => Some(s),
            None => Some(default_switchport()),
        };
        (synced(with_config(v, i, InterfaceConfigView { ipv4: None, dhcp_client: false, switchport: sp, ..c }), id), Ok(()))
    }
}

/// The state and result of making a Layer 3 switch port routed.
pub open spec fn disable_spec(v: DeviceView, id: InterfaceId) -> (DeviceView, Result<(), Failure>) {
    if v.device_type != DeviceType::Layer3Switch || !bridgeable(v, id) {
        (v, Err(Failure::Other(DeviceError::NotRoutedPort)))
    } else {
        let i = id.0 - 1;
        (synced(with_config(v, i, InterfaceConfigView { switchport: None, ..v.interfaces[i].1 }), id), Ok(()))
    }
}

/// The state and result of changing the switchport configuration of `id` by `f`, passed on
/// to the members when `id` is a port channel.
pub open spec fn switchport_edit_spec(v: DeviceView, id: InterfaceId, f: spec_fn(SwitchportView) -> SwitchportView) -> (
    DeviceView,
    Result<(), Failure>,
) {
    match slot(v, id) {
        None => (v, Err(Failure::Other(DeviceError::MissingInterface))),
        Some(i) => match v.interfaces[i].1.switchport {
            None => (v, Err(Failure::Other(DeviceError::NotSwitchport))),
            Some(sp) => (synced(with_config(v, i, InterfaceConfigView { switchport: Some(f(sp)), ..v.interfaces[i].1 }), id), Ok(())),
        },
    }
}

/// The state and result of selecting the switchport mode of `id`; a routed port of a Layer 3
/// switch becomes a switchport first.
pub open spec fn set_mode_spec(v: DeviceView, id: InterfaceId, mode: SwitchportMode) -> (DeviceView, Result<(), Failure>) {
    let first = if v.device_type == DeviceType::Layer3Switch && !l2_spec(v, id) {
        enable_spec(v, id)
    } else {
        (v, Ok(()))
    };
    match first.1 {
        Err(f) => (v, Err(f)),
        Ok(_) => switchport_edit_spec(first.0, id, |s: SwitchportView| SwitchportView { mode, ..s }),
    }
}

/// Whether an interface whose state is its own is up: administratively up and, for ports
/// and VLAN interfaces, with carrier; a loopback needs no carrier. Members of a bundle and
/// parents of subinterfaces are Ethernet ports, whose state is of this kind.
pub open spec fn plain_up(v: DeviceView, j: int) -> bool {
    let (iface, c) = v.interfaces[j];
    &&& c.admin_state == AdminState::Up
    &&& match iface.kind {
        InterfaceKind::Loopback => true,
        InterfaceKind::GigabitEthernet | InterfaceKind::TenGigabitEthernet | InterfaceKind::Vlan => iface.link_state
            == LinkState::Up,
        _ => false,
    }
}

/// Whether slot `j` is an active member of the port channel in slot `li`, numbered `n`: a
/// static member whose switchport configuration and MTU equal the channel's, and which is up.
pub open spec fn active_member(v: DeviceView, li: int, n: u16, j: int) -> bool {
    let c = v.interfaces[j].1;
    &&& c.channel_group == Some(ChannelMembership { number: n, mode: ChannelMode::On })
    &&& c.switchport == v.interfaces[li].1.switchport
    &&& c.mtu == v.interfaces[li].1.mtu
    &&& plain_up(v, j)
}

/// The active members among the first `k` interfaces, in identifier order.
pub open spec fn members_upto(v: DeviceView, li: int, n: u16, k: int) -> Seq<InterfaceId>
    decreases k,
{
    if k <= 0 {
        Seq::empty()
    } else {
        let rest = members_upto(v, li, n, k - 1);
        if active_member(v, li, n, k - 1) {
            rest.push(InterfaceId(k as u64))
        } else {
            rest
        }
    }
}

/// The active members of port channel `logical`, in identifier order; none when it is no
/// port channel.
pub open spec fn members_spec(v: DeviceView, logical: InterfaceId) -> Seq<InterfaceId> {
    match slot(v, logical) {
        None => Seq::empty(),
        Some(li) => match v.interfaces[li].1.port_channel {
            None => Seq::empty(),
            Some(n) => members_upto(v, li, n, v.interfaces.len() as int),
        },
    }
}

/// Whether interface `id` has line protocol: administratively up, and with carrier for a
/// port or VLAN interface, an active member for a port channel, or an encapsulation and an
/// up routed parent for a subinterface. A loopback is up when enabled; serial and console
/// ports never are.
pub open spec fn up_spec(v: DeviceView, id: InterfaceId) -> bool {
    match slot(v, id) {
        None => false,
        Some(i) => {
            let (iface, c) = v.interfaces[i];
            &&& c.admin_state == AdminState::Up
            &&& match iface.kind {
                InterfaceKind::PortChannel => members_spec(v, id).len() > 0,
                InterfaceKind::EthernetSubinterface => c.dot1q is Some && match c.parent {
                    Some(p) => match slot(v, p) {
                        Some(pi) => plain_up(v, pi) && v.interfaces[pi].1.switchport is None,
                        None => false,
                    },
                    None => false,
                },
                _ => plain_up(v, i),
            }
        },
    }
}

/// The VLAN a VLAN interface stands for: the number after `Vlan` in its name.
pub open spec fn svi_spec(v: DeviceView, id: InterfaceId) -> Option<u16> {
    match slot(v, id) {
        None => None,
        Some(i) => {
            let name = v.interfaces[i].1.name;
            let digits = name.skip(4);
            if v.interfaces[i].0.kind == InterfaceKind::Vlan && name.len() > 4 && name.take(4) == "Vlan"@
                && crate::decimal::all_digits(digits) && crate::decimal::digits_value(digits) <= 0xffff && 1
                <= crate::decimal::digits_value(digits) <= 4094 {
                Some(crate::decimal::digits_value(digits) as u16)
            } else {
                None
            }
        },
    }
}

/// Whether interface `k` is an up VLAN interface standing for `vlan`.
pub open spec fn svi_hit(v: DeviceView, vlan: u16, k: int) -> bool {
    svi_spec(v, InterfaceId(k as u64)) == Some(vlan) && up_spec(v, InterfaceId(k as u64))
}

/// Whether switchport `c` carries `vlan`: as its access VLAN, or as a trunk that allows it.
pub open spec fn carries(sp: SwitchportView, vlan: u16) -> bool {
    match sp.mode {
        SwitchportMode::Access => sp.access_vlan == vlan,
        SwitchportMode::Trunk => match sp.allowed {
            None => true,
            Some(s) => s.contains(vlan),
        },
    }
}

/// Whether slot `j` is an up switchport outside any bundle that carries `vlan`.
pub open spec fn carrier_port(v: DeviceView, j: int, vlan: u16) -> bool {
    match v.interfaces[j].1.switchport {
        Some(sp) => v.interfaces[j].1.channel_group is None && up_spec(v, InterfaceId((j + 1) as u64)) && carries(sp, vlan),
        None => false,
    }
}

/// Whether the VLAN interface in slot `i` should be up: its VLAN exists and some up
/// switchport outside any bundle carries it.
pub open spec fn svi_should_be_up(v: DeviceView, i: int) -> bool {
    match svi_spec(v, InterfaceId((i + 1) as u64)) {
        None => false,
        Some(vlan) => has_key(v.vlans, vlan) && exists|j: int| 0 <= j < v.interfaces.len() && #[trigger] carrier_port(v, j, vlan),
    }
}

/// The device after setting the carrier of every VLAN interface from its membership.
pub open spec fn refreshed(v: DeviceView) -> DeviceView {
    DeviceView {
        interfaces: Seq::new(
            v.interfaces.len(),
            |i: int|
                if v.interfaces[i].0.kind == InterfaceKind::Vlan {
                    (
                        Interface {
                            link_state: if svi_should_be_up(v, i) {
                                LinkState::Up
                            } else {
                                LinkState::Down
                            },
                            ..v.interfaces[i].0
                        },
                        v.interfaces[i].1,
                    )
                } else {
                    v.interfaces[i]
                },
        ),
        ..v
    }
}

/// The number in a port-channel name: the digits after `Port-channel`, when they form a
/// 16-bit number.
pub open spec fn channel_number(name: Seq<char>) -> Option<u16> {
    let digits = name.skip(12);
    if name.len() > 12 && name.take(12) == "Port-channel"@ && crate::decimal::all_digits(digits)
        && crate::decimal::digits_value(digits) <= 0xffff {
        Some(crate::decimal::digits_value(digits) as u16)
    } else {
        None
    }
}

/// The name of port channel `n`.
pub open spec fn channel_name(n: u16) -> Seq<char> {
    "Port-channel"@ + crate::decimal::decimal_text(n as nat)
}

/// The state and result of creating port channel `name`: enabled, and a switchport on a
/// switching device.
pub open spec fn create_channel_spec(v: DeviceView, name: Seq<char>) -> (DeviceView, Result<InterfaceId, Failure>) {
    if !routing(v.device_type) && !switching(v.device_type) {
        (v, Err(Failure::Other(DeviceError::InvalidChannel)))
    } else {
        match channel_number(name) {
            None => (v, Err(Failure::Other(DeviceError::InvalidChannel))),
            Some(n) => {
                let (w, r) = insert_spec(v, name, InterfaceKind::PortChannel, InterfaceMedia::Virtual);
                match r {
                    Err(f) => (w, Err(f)),
                    Ok(id) => {
                        let l2 = switching(v.device_type);
                        (
                            with_config(
                                w,
                                id.0 - 1,
                                InterfaceConfigView {
                                    port_channel: Some(n),
                                    admin_state: AdminState::Up,
                                    switchport_capable: l2,
                                    switchport: if l2 {
                                        Some(default_switchport())
                                    } else {
                                        None
                                    },
                                    ..w.interfaces[id.0 - 1].1
                                },
                            ),
                            Ok(id),
                        )
                    },
                }
            },
        }
    }
}

/// Whether `k` is the position of the first `.` in `s`.
pub open spec fn first_dot(s: Seq<char>, k: int) -> bool {
    &&& 0 <= k < s.len()
    &&& s[k] == '.'
    &&& forall|j: int| 0 <= j < k ==> s[j] != '.'
}

/// The state and result of creating routed subinterface `name` of the port before its `.`:
/// enabled, with the parent's hardware address.
pub open spec fn create_sub_spec(v: DeviceView, name: Seq<char>) -> (DeviceView, Result<InterfaceId, Failure>) {
    if !routing(v.device_type) {
        (v, Err(Failure::Other(DeviceError::NotRoutedPort)))
    } else if !exists|k: int| first_dot(name, k) {
        (v, Err(Failure::Invalid(name)))
    } else {
        let pname = name.take(choose|k: int| first_dot(name, k));
        match find_spec(v, pname) {
            None => (v, Err(Failure::Invalid(pname))),
            Some(p) => if l2_spec(v, p) {
                (v, Err(Failure::Other(DeviceError::NotRoutedPort)))
            } else {
                let (w, r) = insert_spec(v, name, InterfaceKind::EthernetSubinterface, InterfaceMedia::Virtual);
                match r {
                    Err(f) => (w, Err(f)),
                    Ok(id) => {
                        let i = id.0 - 1;
                        (
                            DeviceView {
                                interfaces: w.interfaces.update(
                                    i,
                                    (
                                        Interface { mac_address: v.interfaces[p.0 - 1].0.mac_address, ..w.interfaces[i].0 },
                                        InterfaceConfigView { parent: Some(p), admin_state: AdminState::Up, ..w.interfaces[i].1 },
                                    ),
                                ),
                                ..w
                            },
                            Ok(id),
                        )
                    },
                }
            },
        }
    }
}

/// The state and result of entering interface `input`: an existing interface is returned;
/// hardware cannot be created; subinterfaces, port channels, loopbacks and VLAN interfaces
/// are created.
pub open spec fn ensure_spec(v: DeviceView, input: Seq<char>) -> (DeviceView, Result<InterfaceId, Failure>) {
    match canonical_spec(input) {
        None => (v, Err(Failure::Invalid(canonical_error_text(input)))),
        Some((name, kind)) => match find_spec(v, name) {
            Some(id) => (v, Ok(id)),
            None => if physical(kind) {
                (v, Err(Failure::Invalid(input)))
            } else if kind == InterfaceKind::EthernetSubinterface {
                create_sub_spec(v, name)
            } else if kind == InterfaceKind::PortChannel {
                create_channel_spec(v, name)
            } else {
                insert_spec(v, name, kind, InterfaceMedia::Virtual)
            },
        },
    }
}

/// Whether slot `j`, other than `me`, belongs to bundle `n` and conflicts with a new member
/// of `kind` joining in `mode`: another kind of port, or static against LACP membership.
pub open spec fn member_conflict(v: DeviceView, me: int, n: u16, kind: InterfaceKind, mode: ChannelMode, j: int) -> bool {
    &&& j != me
    &&& v.interfaces[j].1.channel_group matches Some(g) && g.number == n
    &&& (v.interfaces[j].0.kind != kind || (v.interfaces[j].1.channel_group->0.mode == ChannelMode::On) != (mode
        == ChannelMode::On))
}

/// The number of slots among the first `k`, other than `me`, in bundle `n`.
pub open spec fn bundle_count(v: DeviceView, me: int, n: u16, k: int) -> nat
    decreases k,
{
    if k <= 0 {
        0
    } else {
        bundle_count(v, me, n, k - 1) + if k - 1 != me && in_bundle(v.interfaces[k - 1].1, n) {
            1nat
        } else {
            0nat
        }
    }
}

/// The state and result of adding Ethernet port `id` to bundle `n` in `mode`. The port must
/// be unaddressed, in no other bundle and parent of no subinterface; the bundle holds at
/// most eight ports of one kind and one membership style; the port channel, created when
/// missing with the port's switchport configuration and MTU, must share both.
pub open spec fn set_group_spec(v: DeviceView, id: InterfaceId, n: u16, mode: ChannelMode) -> (
    DeviceView,
    Result<(), Failure>,
) {
    let bad = Failure::Other(DeviceError::InvalidChannel);
    if !(1 <= n <= 4096) || !(slot(v, id) matches Some(i) && ethernet(v.interfaces[i].0.kind)) || (!routing(
        v.device_type,
    ) && !switching(v.device_type)) {
        (v, Err(bad))
    } else {
        let i = id.0 - 1;
        let (me, c) = v.interfaces[i];
        if c.ipv4 is Some || c.dhcp_client || (c.channel_group matches Some(g) && g.number != n) || (exists|j: int|
            0 <= j < v.interfaces.len() && #[trigger] v.interfaces[j].1.parent == Some(id)) {
            (v, Err(bad))
        } else if bundle_count(v, i, n, v.interfaces.len() as int) >= 8 || (exists|j: int|
            0 <= j < v.interfaces.len() && #[trigger] member_conflict(v, i, n, me.kind, mode, j)) {
            (v, Err(bad))
        } else {
            let joined = InterfaceConfigView { channel_group: Some(ChannelMembership { number: n, mode }), ..c };
            match find_spec(v, channel_name(n)) {
                Some(l) => if v.interfaces[l.0 - 1].1.switchport != c.switchport || v.interfaces[l.0 - 1].1.mtu
                    != c.mtu {
                    (v, Err(bad))
                } else {
                    (with_config(v, i, joined), Ok(()))
                },
                None => {
                    let (w, r) = create_channel_spec(v, channel_name(n));
                    match r {
                        Err(f) => (w, Err(f)),
                        Ok(l) => {
                            let w2 = with_config(
                                w,
                                l.0 - 1,
                                InterfaceConfigView { switchport: c.switchport, mtu: c.mtu, ..w.interfaces[l.0 - 1].1 },
                            );
                            (with_config(w2, i, joined), Ok(()))
                        },
                    }
                },
            }
        }
    }
}

/// Whether slot `j`, other than `me`, is a sibling subinterface of `parent` whose
/// encapsulation clashes with `vlan` (or with a second native subinterface).
pub open spec fn dot1q_clash(v: DeviceView, me: int, parent: InterfaceId, vlan: u16, native: bool, j: int) -> bool {
    &&& j != me
    &&& v.interfaces[j].1.parent == Some(parent)
    &&& v.interfaces[j].1.dot1q matches Some(t) && (t.0 == vlan || (t.1 && native))
}

/// The state and result of giving subinterface `id` the encapsulation `vlan`, optionally
/// native. VLANs are unique per parent, and a parent has at most one native subinterface.
pub open spec fn set_dot1q_spec(v: DeviceView, id: InterfaceId, vlan: u16, native: bool) -> (
    DeviceView,
    Result<(), Failure>,
) {
    match slot(v, id) {
        None => (v, Err(Failure::Other(DeviceError::NotSubinterface))),
        Some(i) => match v.interfaces[i].1.parent {
            None => (v, Err(Failure::Other(DeviceError::NotSubinterface))),
            Some(p) => if exists|j: int| 0 <= j < v.interfaces.len() && #[trigger] dot1q_clash(v, i, p, vlan, native, j) {
                (v, Err(Failure::Other(DeviceError::DuplicateEncapsulation)))
            } else {
                (with_config(v, i, InterfaceConfigView { dot1q: Some((vlan, native)), ..v.interfaces[i].1 }), Ok(()))
            },
        },
    }
}

proof fn lemma_first_named_unique(v: DeviceView, name: Seq<char>, i: int)
    requires
        first_named(v, name, i),
    ensures
        find_spec(v, name) == Some(InterfaceId((i + 1) as u64)),
{
    let k = choose|k: int| first_named(v, name, k);
    if k < i {
        assert(!same_name(v.interfaces[k].1.name, name));
    } else if i < k {
        assert(!same_name(v.interfaces[i].1.name, name));
    }
}

fn same_name_exec(a: &Vec<char>, b: &Vec<char>) -> (r: bool)
    ensures
        r == same_name(a@, b@),
{
    if a.len() != b.len() {
        return false;
    }
    let mut i: usize = 0;
    while i < a.len()
        invariant
            a@.len() == b@.len(),
            i <= a@.len(),
            forall|j: int| 0 <= j < i ==> lower(#[trigger] a@[j]) == lower(b@[j]),
        decreases a@.len() - i,
    {
        if lower_char(a[i]) != lower_char(b[i]) {
            return false;
        }
        i = i + 1;
    }
    true
}

fn vlan_named(s: &Vec<(VlanId, String)>, vlan: VlanId) -> (r: Option<usize>)
    requires
        keys_unique(vlans_view(s@)),
    ensures
        match r {
            Some(i) => i < s@.len() && has_key(vlans_view(s@), vlan@) && key_index(vlans_view(s@), vlan@) == i,
            None => !has_key(vlans_view(s@), vlan@),
        },
{
    let ghost v = vlans_view(s@);
    let mut i: usize = 0;
    while i < s.len()
        invariant
            v == vlans_view(s@),
            keys_unique(v),
            i <= s@.len(),
            forall|j: int| 0 <= j < i ==> #[trigger] v[j].0 != vlan@,
        decreases s@.len() - i,
    {
        if s[i].0.get() == vlan.get() {
            proof {
                lemma_key_index(v, i as int);
            }
            return Some(i);
        }
        i = i + 1;
    }
    None
}

fn default_switchport_exec() -> (r: SwitchportConfig)
    ensures
        r@ == default_switchport(),
{
    let one = match VlanId::new(1) {
        Ok(v) => v,
        Err(_) => {
            return SwitchportConfig {
                mode: SwitchportMode::Access,
                access_vlan: VlanId::new(1).unwrap(),
                native_vlan: VlanId::new(1).unwrap(),
                trunk_allowed_vlans: None,
            };
        },
    };
    SwitchportConfig { mode: SwitchportMode::Access, access_vlan: one, native_vlan: one, trunk_allowed_vlans: None }
}

impl Device {
    /// A device with no interfaces; a switching device starts with VLAN 1. The hostname
    /// must be valid and the identifier at most 16777215.
    pub fn new(id: DeviceId, hostname: &str, device_type: DeviceType) -> (r: Result<Device, DeviceError>)
        ensures
            match r {
                Ok(d) => d@ == initial_device(id, hostname@, device_type) && device_wf(d@),
                Err(e) => if !hostname_valid(hostname.spec_bytes()) {
                    e == DeviceError::InvalidHostname
                } else {
                    id.0 > MAX_DEVICE_ID && e == DeviceError::InvalidDeviceId
                },
            },
            r is Ok <==> hostname_valid(hostname.spec_bytes()) && id.0 <= MAX_DEVICE_ID,
    {
        if let Err(e) = validate_hostname(hostname) {
            return Err(e);
        }
        if id.0 > MAX_DEVICE_ID {
            return Err(DeviceError::InvalidDeviceId);
        }
        let mut vlans: Vec<(VlanId, String)> = Vec::new();
        if matches!(device_type, DeviceType::Switch | DeviceType::Layer3Switch) {
            let one = match VlanId::new(1) {
                Ok(v) => v,
                Err(_) => {
                    return Err(DeviceError::InvalidDeviceId);
                },
            };
            vlans.push((one, String::new()));
        }
        let owned = crate::text::string_from_chars(&crate::text::str_chars(hostname));
        let d = Device {
            id,
            device_type,
            hostname: owned,
            ip_routing: false,
            interfaces: Vec::new(),
            counters: Vec::new(),
            vlans,
            startup: None,
        };
        proof {
            assert(interfaces_view(d.interfaces@) =~= Seq::<(Interface, InterfaceConfigView)>::empty());
            assert(d@.counters =~= Seq::<CountersView>::empty());
            if switching(device_type) {
                assert(vlans_view(d.vlans@) =~= seq![(1u16, Seq::<char>::empty())]);
            } else {
                assert(vlans_view(d.vlans@) =~= Seq::<(u16, Seq<char>)>::empty());
            }
            assert(d@ =~= initial_device(id, hostname@, device_type));
        }
        Ok(d)
    }

    /// The device identifier.
    pub fn id(&self) -> (r: DeviceId)
        ensures
            r == self@.id,
    {
        self.id
    }

    /// The device class.
    pub fn device_type(&self) -> (r: DeviceType)
        ensures
            r == self@.device_type,
    {
        self.device_type
    }

    /// The hostname.
    pub fn hostname(&self) -> (r: &str)
        ensures
            r@ == self@.hostname,
    {
        self.hostname.as_str()
    }

    /// Change the hostname after validating it.
    pub fn set_hostname(&mut self, hostname: &str) -> (r: Result<(), DeviceError>)
        requires
            device_wf(old(self)@),
        ensures
            device_wf(final(self)@),
            r is Ok <==> hostname_valid(hostname.spec_bytes()),
            r is Ok ==> final(self)@ == (DeviceView { hostname: hostname@, ..old(self)@ }),
            r matches Err(e) ==> e == DeviceError::InvalidHostname && final(self)@ == old(self)@,
    {
        validate_hostname(hostname)?;
        self.hostname = crate::text::string_from_chars(&crate::text::str_chars(hostname));
        proof {
            assert(self@ =~= DeviceView { hostname: hostname@, ..old(self)@ });
        }
        Ok(())
    }

    /// Whether the device bridges Ethernet switchports.
    pub fn supports_switching(&self) -> (r: bool)
        ensures
            r == switching(self@.device_type),
    {
        matches!(self.device_type, DeviceType::Switch | DeviceType::Layer3Switch)
    }

    /// Whether the device routes IPv4.
    pub fn supports_routing(&self) -> (r: bool)
        ensures
            r == routing(self@.device_type),
    {
        matches!(self.device_type, DeviceType::Router | DeviceType::Layer3Switch)
    }

    /// Whether transit IPv4 is forwarded: always on a router, on a Layer 3 switch once
    /// routing is enabled.
    pub fn ipv4_forwarding_enabled(&self) -> (r: bool)
        ensures
            r == (self@.device_type == DeviceType::Router || (self@.device_type == DeviceType::Layer3Switch
                && self@.ip_routing)),
    {
        match self.device_type {
            DeviceType::Router => true,
            DeviceType::Layer3Switch => self.ip_routing,
            _ => false,
        }
    }

    /// Enable or disable IPv4 routing on a routing-capable device.
    pub fn set_ip_routing(&mut self, enabled: bool) -> (r: Result<(), DeviceError>)
        requires
            device_wf(old(self)@),
        ensures
            device_wf(final(self)@),
            r is Ok <==> routing(old(self)@.device_type),
            r is Ok ==> final(self)@ == (DeviceView { ip_routing: enabled, ..old(self)@ }),
            r matches Err(e) ==> e == DeviceError::NotRoutedPort && final(self)@ == old(self)@,
    {
        if !self.supports_routing() {
            return Err(DeviceError::NotRoutedPort);
        }
        self.ip_routing = enabled;
        proof {
            assert(self@ =~= DeviceView { ip_routing: enabled, ..old(self)@ });
        }
        Ok(())
    }

    /// The VLAN database: each VLAN with its name, empty when unnamed, in creation order.
    pub fn vlans(&self) -> (r: &Vec<(VlanId, String)>)
        ensures
            vlans_view(r@) == self@.vlans,
    {
        &self.vlans
    }

    /// The number of interfaces; they are numbered from 1.
    pub fn interface_count(&self) -> (r: usize)
        ensures
            r == self@.interfaces.len(),
    {
        self.interfaces.len()
    }

    /// Interface `id` and its configuration.
    pub fn interface(&self, id: InterfaceId) -> (r: Option<(&Interface, &InterfaceConfig)>)
        requires
            device_wf(self@),
        ensures
            match slot(self@, id) {
                Some(i) => r matches Some((a, b)) && *a == self@.interfaces[i].0 && b@ == self@.interfaces[i].1,
                None => r is None,
            },
    {
        if 1 <= id.0 && id.0 <= self.interfaces.len() as u64 {
            let i = (id.0 - 1) as usize;
            Some((&self.interfaces[i].0, &self.interfaces[i].1))
        } else {
            None
        }
    }

    /// The interface named `canonical`, ignoring ASCII case.
    pub fn find_interface(&self, canonical: &str) -> (r: Option<InterfaceId>)
        requires
            device_wf(self@),
        ensures
            r == find_spec(self@, canonical@),
    {
        let wanted = crate::text::str_chars(canonical);
        self.find_chars(&wanted)
    }

    fn find_chars(&self, wanted: &Vec<char>) -> (r: Option<InterfaceId>)
        requires
            device_wf(self@),
        ensures
            r == find_spec(self@, wanted@),
    {
        let ghost v = self@;
        let mut i: usize = 0;
        while i < self.interfaces.len()
            invariant
                v == self@,
                device_wf(v),
                i <= v.interfaces.len(),
                v.interfaces.len() == self.interfaces@.len(),
                forall|j: int| 0 <= j < i ==> !same_name((#[trigger] v.interfaces[j]).1.name, wanted@),
            decreases v.interfaces.len() - i,
        {
            let name = crate::text::str_chars(self.interfaces[i].1.name.as_str());
            assert(v.interfaces[i as int].1.name == self.interfaces@[i as int].1.name@);
            if same_name_exec(&name, wanted) {
                proof {
                    assert(first_named(v, wanted@, i as int));
                    lemma_first_named_unique(v, wanted@, i as int);
                }
                return Some(InterfaceId((i + 1) as u64));
            }
            i = i + 1;
        }
        None
    }

    fn insert_interface(&mut self, name: String, kind: InterfaceKind, media: InterfaceMedia) -> (r: Result<InterfaceId, DeviceError>)
        requires
            device_wf(old(self)@),
        ensures
            device_wf(final(self)@),
            outcome(final(self)@, r, insert_spec(old(self)@, name@, kind, media)),
    {
        let chars = crate::text::str_chars(name.as_str());
        if let Some(id) = self.find_chars(&chars) {
            return Ok(id);
        }
        let next: u64 = self.interfaces.len() as u64 + 1;
        if next > MAX_INTERFACE_ID {
            return Err(DeviceError::InvalidInterface(name));
        }
        let id = InterfaceId(next);
        let d = self.id.0;
        let mac = MacAddress(
            [
                2u8,
                ((d / 65536) % 256) as u8,
                ((d / 256) % 256) as u8,
                (d % 256) as u8,
                ((next / 256) % 256) as u8,
                (next % 256) as u8,
            ],
        );
        let l2 = self.supports_switching() && kind.is_ethernet();
        let switchport = if l2 {
            Some(default_switchport_exec())
        } else {
            None
        };
        let iface = Interface { id, kind, media, mac_address: mac, link_state: LinkState::Down };
        let config = InterfaceConfig {
            name,
            description: String::new(),
            admin_state: if l2 {
                AdminState::Up
            } else {
                AdminState::Down
            },
            ipv4: None,
            dhcp_client: false,
            mtu: DEFAULT_MTU,
            switchport_capable: l2,
            switchport,
            parent: None,
            dot1q: None,
            channel_group: None,
            port_channel: None,
        };
        let ghost before = self.interfaces@;
        let ghost counted = self@.counters;
        proof {
            assert(mac == mac_for(self@.id.0, next));
            assert(config@ =~= fresh_config(name@, kind, self@.device_type));
        }
        self.interfaces.push((iface, config));
        self.counters.push(InterfaceCounters::zero());
        proof {
            assert(interfaces_view(self.interfaces@) =~= interfaces_view(before).push((iface, config@)));
            assert(self@.counters =~= counted.push(zero_counters()));
            assert(self@ =~= insert_spec(old(self)@, name@, kind, media).0);
        }
        Ok(id)
    }

    /// Add installed hardware named `name` with the default media of its family; logical
    /// families are refused.
    pub fn add_physical_interface(&mut self, name: &str) -> (r: Result<InterfaceId, DeviceError>)
        requires
            device_wf(old(self)@),
        ensures
            device_wf(final(self)@),
            outcome(final(self)@, r, add_physical_spec(old(self)@, name@)),
    {
        let (canonical, kind) = canonical_interface(name)?;
        if !kind.is_physical() {
            return Err(DeviceError::InvalidInterface(name.to_owned()));
        }
        let media = match kind {
            InterfaceKind::GigabitEthernet => InterfaceMedia::Rj45,
            InterfaceKind::TenGigabitEthernet => InterfaceMedia::SfpPlus,
            InterfaceKind::Serial => InterfaceMedia::Serial,
            _ => InterfaceMedia::Console,
        };
        self.insert_interface(canonical, kind, media)
    }

    /// Add installed hardware named `name` presenting `media`, which must suit its family.
    pub fn add_port(&mut self, name: &str, media: InterfaceMedia) -> (r: Result<InterfaceId, DeviceError>)
        requires
            device_wf(old(self)@),
        ensures
            device_wf(final(self)@),
            outcome(final(self)@, r, add_port_spec(old(self)@, name@, media)),
    {
        let (canonical, kind) = canonical_interface(name)?;
        let valid = match (kind, media) {
            (InterfaceKind::GigabitEthernet, InterfaceMedia::Rj45) => true,
            (InterfaceKind::GigabitEthernet, InterfaceMedia::Sfp) => true,
            (InterfaceKind::TenGigabitEthernet, InterfaceMedia::SfpPlus) => true,
            (InterfaceKind::Serial, InterfaceMedia::Serial) => true,
            (InterfaceKind::Console, InterfaceMedia::Console) => true,
            _ => false,
        };
        if !valid {
            return Err(DeviceError::InvalidInterface(name.to_owned()));
        }
        self.insert_interface(canonical, kind, media)
    }

    /// Describe interface `id`; the text must have at most 240 characters and no control
    /// characters, and is stored without surrounding whitespace.
    pub fn set_description(&mut self, id: InterfaceId, text: &str) -> (r: Result<(), DeviceError>)
        requires
            device_wf(old(self)@),
        ensures
            device_wf(final(self)@),
            outcome(final(self)@, r, describe_spec(old(self)@, id, text@)),
    {
        let chars = crate::text::str_chars(text);
        if chars.len() > MAX_DESCRIPTION {
            return Err(DeviceError::InvalidDescription);
        }
        let mut k: usize = 0;
        while k < chars.len()
            invariant
                self@ == old(self)@,
                device_wf(self@),
                k <= chars@.len(),
                chars@ == text@,
                forall|j: int| 0 <= j < k ==> !crate::acl::is_control(#[trigger] chars@[j]),
            decreases chars@.len() - k,
        {
            let u = chars[k] as u32;
            if u < 0x20 || (0x7f <= u && u <= 0x9f) {
                assert(crate::acl::is_control(chars@[k as int]));
                return Err(DeviceError::InvalidDescription);
            }
            k = k + 1;
        }
        if !(1 <= id.0 && id.0 <= self.interfaces.len() as u64) {
            return Err(DeviceError::MissingInterface);
        }
        let trimmed = trim_chars(&chars);
        let i = (id.0 - 1) as usize;
        let ghost before = self.interfaces@;
        let (iface, mut config) = self.interfaces.remove(i);
        config.description = crate::text::string_from_chars(&trimmed);
        self.interfaces.insert(i, (iface, config));
        proof {
            assert(self.interfaces@ =~= before.update(i as int, self.interfaces@[i as int]));
            assert(interfaces_view(self.interfaces@) =~= interfaces_view(before).update(i as int, (iface, self.interfaces@[i as int].1@)));
            assert(self@ =~= describe_spec(old(self)@, id, text@).0);
        }
        Ok(())
    }

    /// Remove the description of interface `id`.
    pub fn clear_description(&mut self, id: InterfaceId) -> (r: Result<(), DeviceError>)
        requires
            device_wf(old(self)@),
        ensures
            device_wf(final(self)@),
            match slot(old(self)@, id) {
                None => r == Err::<(), DeviceError>(DeviceError::MissingInterface) && final(self)@ == old(self)@,
                Some(i) => r is Ok && final(self)@ == with_config(
                    old(self)@,
                    i,
                    InterfaceConfigView { description: Seq::empty(), ..old(self)@.interfaces[i].1 },
                ),
            },
    {
        if !(1 <= id.0 && id.0 <= self.interfaces.len() as u64) {
            return Err(DeviceError::MissingInterface);
        }
        let i = (id.0 - 1) as usize;
        let ghost before = self.interfaces@;
        let (iface, mut config) = self.interfaces.remove(i);
        config.description = String::new();
        self.interfaces.insert(i, (iface, config));
        proof {
            assert(self.interfaces@ =~= before.update(i as int, self.interfaces@[i as int]));
            assert(interfaces_view(self.interfaces@) =~= interfaces_view(before).update(i as int, (iface, self.interfaces@[i as int].1@)));
            assert(self@ =~= with_config(
                old(self)@,
                i as int,
                InterfaceConfigView { description: Seq::empty(), ..old(self)@.interfaces[i as int].1 },
            ));
        }
        Ok(())
    }

    /// Add `vlan` to the VLAN database of a switching device; an existing VLAN is kept.
    pub fn create_vlan(&mut self, vlan: VlanId) -> (r: Result<(), DeviceError>)
        requires
            device_wf(old(self)@),
        ensures
            device_wf(final(self)@),
            r is Ok <==> switching(old(self)@.device_type),
            r is Ok ==> final(self)@ == (DeviceView { vlans: with_vlan(old(self)@.vlans, vlan@), ..old(self)@ }),
            r matches Err(e) ==> e == DeviceError::NotSwitchport && final(self)@ == old(self)@,
    {
        if !self.supports_switching() {
            return Err(DeviceError::NotSwitchport);
        }
        let ghost before = self.vlans@;
        if vlan_named(&self.vlans, vlan).is_none() {
            self.vlans.push((vlan, String::new()));
            proof {
                assert(vlans_view(self.vlans@) =~= vlans_view(before).push((vlan@, Seq::<char>::empty())));
                lemma_put_unique(vlans_view(before), vlan@, Seq::<char>::empty());
            }
        }
        proof {
            assert(self@ =~= DeviceView { vlans: with_vlan(old(self)@.vlans, vlan@), ..old(self)@ });
        }
        Ok(())
    }

    /// Remove a VLAN other than VLAN 1 from the database of a switching device.
    pub fn remove_vlan(&mut self, vlan: VlanId) -> (r: Result<(), DeviceError>)
        requires
            device_wf(old(self)@),
        ensures
            device_wf(final(self)@),
            r is Ok <==> switching(old(self)@.device_type) && vlan@ != 1,
            r is Ok ==> final(self)@ == (DeviceView { vlans: without(old(self)@.vlans, vlan@), ..old(self)@ }),
            r matches Err(e) ==> final(self)@ == old(self)@ && e == if !switching(old(self)@.device_type) {
                DeviceError::NotSwitchport
            } else {
                DeviceError::DefaultVlan
            },
    {
        if !self.supports_switching() {
            return Err(DeviceError::NotSwitchport);
        }
        if vlan.get() == 1 {
            return Err(DeviceError::DefaultVlan);
        }
        let ghost before = self.vlans@;
        proof {
            lemma_without_unique(vlans_view(before), vlan@);
        }
        if let Some(i) = vlan_named(&self.vlans, vlan) {
            let _ = self.vlans.remove(i);
            proof {
                assert(vlans_view(self.vlans@) =~= vlans_view(before).remove(i as int));
            }
        }
        proof {
            assert(self@ =~= DeviceView { vlans: without(old(self)@.vlans, vlan@), ..old(self)@ });
        }
        Ok(())
    }

    /// Name an existing VLAN; the name has 1 to 32 printable non-space ASCII characters.
    pub fn set_vlan_name(&mut self, vlan: VlanId, name: &str) -> (r: Result<(), DeviceError>)
        requires
            device_wf(old(self)@),
        ensures
            device_wf(final(self)@),
            r is Ok <==> vlan_name_ok(name.spec_bytes()) && has_key(old(self)@.vlans, vlan@),
            r is Ok ==> final(self)@ == (DeviceView { vlans: put(old(self)@.vlans, vlan@, name@), ..old(self)@ }),
            r matches Err(e) ==> final(self)@ == old(self)@ && e == if !vlan_name_ok(name.spec_bytes()) {
                DeviceError::InvalidVlanName
            } else {
                DeviceError::NotSwitchport
            },
    {
        let bytes = name.as_bytes();
        if bytes.len() == 0 || bytes.len() > 32 {
            return Err(DeviceError::InvalidVlanName);
        }
        let mut k: usize = 0;
        while k < bytes.len()
            invariant
                self@ == old(self)@,
                device_wf(self@),
                k <= bytes@.len(),
                bytes@ == name.spec_bytes(),
                forall|j: int| 0 <= j < k ==> 0x21 <= #[trigger] bytes@[j] <= 0x7e,
            decreases bytes@.len() - k,
        {
            if bytes[k] < 0x21 || bytes[k] > 0x7e {
                return Err(DeviceError::InvalidVlanName);
            }
            k = k + 1;
        }
        let i = match vlan_named(&self.vlans, vlan) {
            None => {
                return Err(DeviceError::NotSwitchport);
            },
            Some(i) => i,
        };
        let ghost before = self.vlans@;
        let owned = crate::text::string_from_chars(&crate::text::str_chars(name));
        self.vlans.set(i, (vlan, owned));
        proof {
            assert(vlans_view(self.vlans@) =~= vlans_view(before).update(i as int, (vlan@, name@)));
            lemma_put_unique(vlans_view(before), vlan@, name@);
            assert(self@ =~= DeviceView { vlans: put(old(self)@.vlans, vlan@, name@), ..old(self)@ });
        }
        Ok(())
    }
}

/// The switchport configurations as mathematical values.
pub open spec fn policy_view(p: Option<SwitchportConfig>) -> Option<SwitchportView> {
    match p {
        Some(s) => Some(s@),
        None => None,
    }
}

fn copy_vlans(v: &Vec<VlanId>) -> (r: Vec<VlanId>)
    ensures
        r@ == v@,
{
    let mut r: Vec<VlanId> = Vec::new();
    let mut i: usize = 0;
    while i < v.len()
        invariant
            i <= v@.len(),
            r@ == v@.take(i as int),
        decreases v@.len() - i,
    {
        r.push(v[i]);
        i = i + 1;
        assert(r@ =~= v@.take(i as int));
    }
    assert(v@.take(v@.len() as int) =~= v@);
    r
}

fn clone_switchport(s: &SwitchportConfig) -> (r: SwitchportConfig)
    ensures
        r@ == s@,
{
    let allowed = match &s.trunk_allowed_vlans {
        Some(v) => Some(copy_vlans(v)),
        None => None,
    };
    SwitchportConfig { mode: s.mode, access_vlan: s.access_vlan, native_vlan: s.native_vlan, trunk_allowed_vlans: allowed }
}

fn clone_policy(p: &Option<SwitchportConfig>) -> (r: Option<SwitchportConfig>)
    ensures
        policy_view(r) == policy_view(*p),
{
    match p {
        Some(s) => Some(clone_switchport(s)),
        None => None,
    }
}

fn clone_config(c: &InterfaceConfig) -> (r: InterfaceConfig)
    ensures
        r@ == c@,
{
    let r = InterfaceConfig {
        name: c.name.clone(),
        description: c.description.clone(),
        admin_state: c.admin_state,
        ipv4: c.ipv4,
        dhcp_client: c.dhcp_client,
        mtu: c.mtu,
        switchport_capable: c.switchport_capable,
        switchport: clone_policy(&c.switchport),
        parent: c.parent,
        dot1q: c.dot1q,
        channel_group: c.channel_group,
        port_channel: c.port_channel,
    };
    assert(r@ =~= c@);
    r
}

impl Device {
    /// A copy of the configuration the device runs.
    pub fn running_config(&self) -> (r: RunningConfig)
        ensures
            r@ == running_view(self@),
    {
        let mut interfaces: Vec<InterfaceConfig> = Vec::new();
        let mut i: usize = 0;
        while i < self.interfaces.len()
            invariant
                i <= self@.interfaces.len(),
                self@.interfaces.len() == self.interfaces@.len(),
                interfaces@.len() == i,
                forall|j: int| 0 <= j < i ==> (#[trigger] interfaces@[j])@ == self@.interfaces[j].1,
            decreases self.interfaces@.len() - i,
        {
            interfaces.push(clone_config(&self.interfaces[i].1));
            i = i + 1;
        }
        let mut vlans: Vec<(VlanId, String)> = Vec::new();
        let mut k: usize = 0;
        while k < self.vlans.len()
            invariant
                k <= self.vlans@.len(),
                vlans@.len() == k,
                forall|j: int| 0 <= j < k ==> #[trigger] vlans@[j].0 == self.vlans@[j].0 && vlans@[j].1@
                    == self.vlans@[j].1@,
            decreases self.vlans@.len() - k,
        {
            vlans.push((self.vlans[k].0, self.vlans[k].1.clone()));
            k = k + 1;
        }
        let r = RunningConfig { hostname: self.hostname.clone(), ip_routing: self.ip_routing, interfaces, vlans };
        assert(r@.interfaces =~= running_view(self@).interfaces);
        assert(r@.vlans =~= running_view(self@).vlans);
        r
    }

    /// The saved configuration; a new device has none.
    pub fn startup_config(&self) -> (r: Option<&RunningConfig>)
        ensures
            match r {
                Some(c) => self@.startup == Some(c@),
                None => self@.startup is None,
            },
    {
        match &self.startup {
            Some(c) => Some(c),
            None => None,
        }
    }

    /// Save the running configuration as the startup configuration; later changes leave
    /// the saved copy as it is.
    pub fn save_config(&mut self)
        ensures
            final(self)@ == (DeviceView { startup: Some(running_view(old(self)@)), ..old(self)@ }),
    {
        let saved = self.running_config();
        self.startup = Some(saved);
        assert(self@ =~= DeviceView { startup: Some(running_view(old(self)@)), ..old(self)@ });
    }
}

impl Device {
    /// Replace the configuration of interface slot `i`.
    fn update_config(&mut self, i: usize, cfg: InterfaceConfig)
        requires
            device_wf(old(self)@),
            i < old(self)@.interfaces.len(),
        ensures
            device_wf(final(self)@),
            final(self)@ == with_config(old(self)@, i as int, cfg@),
    {
        let ghost before = self.interfaces@;
        assert(before.len() == self@.interfaces.len());
        let (iface, _) = self.interfaces.remove(i);
        self.interfaces.insert(i, (iface, cfg));
        proof {
            assert(self.interfaces@ =~= before.update(i as int, (iface, cfg)));
            assert(interfaces_view(self.interfaces@) =~= interfaces_view(before).update(i as int, (iface, cfg@)));
            assert(self@ =~= with_config(old(self)@, i as int, cfg@));
        }
    }

    /// Copy the switchport configuration of port channel `id` onto its members.
    fn sync_channel_switchports(&mut self, id: InterfaceId)
        requires
            device_wf(old(self)@),
        ensures
            device_wf(final(self)@),
            final(self)@ == synced(old(self)@, id),
    {
        if !(1 <= id.0 && id.0 <= self.interfaces.len() as u64) {
            return;
        }
        let i = (id.0 - 1) as usize;
        let ghost v0 = self@;
        assert(v0.interfaces[i as int].1 == self.interfaces@[i as int].1@);
        let number = match self.interfaces[i].1.port_channel {
            None => {
                return;
            },
            Some(n) => n,
        };
        let policy = clone_policy(&self.interfaces[i].1.switchport);
        let ghost target = synced(v0, id);
        let mut j: usize = 0;
        while j < self.interfaces.len()
            invariant
                device_wf(self@),
                self@.interfaces.len() == v0.interfaces.len(),
                self.interfaces@.len() == v0.interfaces.len(),
                j <= v0.interfaces.len(),
                target == synced(v0, id),
                policy_view(policy) == v0.interfaces[i as int].1.switchport,
                v0.interfaces[i as int].1.port_channel == Some(number),
                slot(v0, id) == Some(i as int),
                forall|k: int| 0 <= k < j ==> #[trigger] self@.interfaces[k] == target.interfaces[k],
                forall|k: int| j <= k < v0.interfaces.len() ==> #[trigger] self@.interfaces[k] == v0.interfaces[k],
                self@.id == v0.id,
                self@.device_type == v0.device_type,
                self@.hostname == v0.hostname,
                self@.ip_routing == v0.ip_routing,
                self@.vlans == v0.vlans,
                self@.counters == v0.counters,
                self@.startup == v0.startup,
            decreases v0.interfaces.len() - j,
        {
            assert(self@.interfaces[j as int].1 == self.interfaces@[j as int].1@);
            let member = match self.interfaces[j].1.channel_group {
                Some(g) => g.number == number,
                None => false,
            };
            if member {
                let mut c = clone_config(&self.interfaces[j].1);
                c.switchport = clone_policy(&policy);
                let ghost before = self@;
                self.update_config(j, c);
                proof {
                    assert forall|k: int| 0 <= k < j + 1 implies #[trigger] self@.interfaces[k] == target.interfaces[k] by {
                        if k < j {
                            assert(self@.interfaces[k] == before.interfaces[k]);
                        }
                    }
                    assert forall|k: int| j + 1 <= k < v0.interfaces.len() implies #[trigger] self@.interfaces[k] == v0.interfaces[k] by {
                        assert(self@.interfaces[k] == before.interfaces[k]);
                    }
                }
            }
            j = j + 1;
        }
        proof {
            assert(self@.interfaces =~= target.interfaces);
            assert(self@ =~= target);
        }
    }

    /// The port channel that interface `member` belongs to.
    pub fn channel_interface(&self, member: InterfaceId) -> (r: Option<InterfaceId>)
        requires
            device_wf(self@),
        ensures
            r == channel_spec(self@, member),
    {
        if !(1 <= member.0 && member.0 <= self.interfaces.len() as u64) {
            return None;
        }
        let i = (member.0 - 1) as usize;
        let ghost v = self@;
        assert(v.interfaces[i as int].1 == self.interfaces@[i as int].1@);
        let number = match self.interfaces[i].1.channel_group {
            None => {
                return None;
            },
            Some(g) => g.number,
        };
        let mut k: usize = 0;
        while k < self.interfaces.len()
            invariant
                v == self@,
                slot(v, member) == Some(i as int),
                v.interfaces[i as int].1.channel_group matches Some(g) && g.number == number,
                k <= v.interfaces.len(),
                v.interfaces.len() == self.interfaces@.len(),
                forall|j: int| 0 <= j < k ==> (#[trigger] v.interfaces[j]).1.port_channel != Some(number),
            decreases v.interfaces.len() - k,
        {
            assert(v.interfaces[k as int].1 == self.interfaces@[k as int].1@);
            if self.interfaces[k].1.port_channel == Some(number) {
                proof {
                    assert(first_bundle(v, number, k as int));
                    let c = choose|c: int| first_bundle(v, number, c);
                    if c < k {
                        assert(v.interfaces[c].1.port_channel != Some(number));
                    } else if c > k {
                        assert(v.interfaces[k as int].1.port_channel != Some(number));
                    }
                }
                return Some(InterfaceId((k + 1) as u64));
            }
            k = k + 1;
        }
        None
    }

    /// Give interface `id` the address `ip`; serial and console ports, bundle members and
    /// switchports are refused. DHCP addressing of the interface ends.
    pub fn set_ipv4(&mut self, id: InterfaceId, ip: Ipv4InterfaceConfig) -> (r: Result<(), DeviceError>)
        requires
            device_wf(old(self)@),
        ensures
            device_wf(final(self)@),
            outcome(final(self)@, r, set_ipv4_spec(old(self)@, id, ip@)),
    {
        if !(1 <= id.0 && id.0 <= self.interfaces.len() as u64) {
            return Err(DeviceError::MissingInterface);
        }
        let i = (id.0 - 1) as usize;
        assert(self@.interfaces[i as int].1 == self.interfaces@[i as int].1@);
        match self.interfaces[i].0.kind {
            InterfaceKind::Serial | InterfaceKind::Console => {
                return Err(DeviceError::UnsupportedIpv4Interface);
            },
            _ => {},
        }
        if self.channel_interface(id).is_some() {
            return Err(DeviceError::InvalidChannel);
        }
        if self.interfaces[i].1.switchport.is_some() {
            return Err(DeviceError::NotRoutedPort);
        }
        let mut c = clone_config(&self.interfaces[i].1);
        c.ipv4 = Some(ip);
        c.dhcp_client = false;
        self.update_config(i, c);
        Ok(())
    }

    /// Make interface `id` a DHCP client: its static address goes away, and a lease it held
    /// before it was a client is dropped. Refused on a switch and on serial and console ports.
    pub fn set_dhcp_client(&mut self, leases: &mut DhcpLeases, id: InterfaceId) -> (r: Result<(), DeviceError>)
        requires
            device_wf(old(self)@),
            keys_unique(old(leases)@),
        ensures
            device_wf(final(self)@),
            keys_unique(final(leases)@),
            (final(self)@, final(leases)@, r) == dhcp_client_spec(old(self)@, old(leases)@, id),
    {
        if !matches!(self.device_type, DeviceType::Router | DeviceType::Host | DeviceType::Layer3Switch) {
            return Err(DeviceError::DhcpUnsupported);
        }
        if !(1 <= id.0 && id.0 <= self.interfaces.len() as u64) {
            return Err(DeviceError::MissingInterface);
        }
        let i = (id.0 - 1) as usize;
        if matches!(self.interfaces[i].0.kind, InterfaceKind::Serial | InterfaceKind::Console) {
            return Err(DeviceError::UnsupportedIpv4Interface);
        }
        assert(self@.interfaces[i as int].1 == self.interfaces@[i as int].1@);
        let was_dhcp = self.interfaces[i].1.dhcp_client;
        let mut c = clone_config(&self.interfaces[i].1);
        c.ipv4 = None;
        c.dhcp_client = true;
        self.update_config(i, c);
        if !was_dhcp {
            leases.forget(id);
        }
        proof {
            assert(c@ =~= InterfaceConfigView { ipv4: None, dhcp_client: true, ..old(self)@.interfaces[i as int].1 });
        }
        Ok(())
    }

    /// Remove static or DHCP addressing from interface `id`.
    pub fn clear_ipv4(&mut self, id: InterfaceId) -> (r: Result<(), DeviceError>)
        requires
            device_wf(old(self)@),
        ensures
            device_wf(final(self)@),
            outcome(
                final(self)@,
                r,
                edit_spec(old(self)@, id, (|c: InterfaceConfigView| InterfaceConfigView { ipv4: None, dhcp_client: false, ..c })),
            ),
    {
        if !(1 <= id.0 && id.0 <= self.interfaces.len() as u64) {
            return Err(DeviceError::MissingInterface);
        }
        let i = (id.0 - 1) as usize;
        let mut c = clone_config(&self.interfaces[i].1);
        c.ipv4 = None;
        c.dhcp_client = false;
        self.update_config(i, c);
        proof {
            assert(c@ =~= InterfaceConfigView { ipv4: None, dhcp_client: false, ..old(self)@.interfaces[i as int].1 });
        }
        Ok(())
    }

    /// Change the administrative state of interface `id`.
    pub fn set_admin_state(&mut self, id: InterfaceId, state: AdminState) -> (r: Result<(), DeviceError>)
        requires
            device_wf(old(self)@),
        ensures
            device_wf(final(self)@),
            outcome(final(self)@, r, edit_spec(old(self)@, id, (|c: InterfaceConfigView| InterfaceConfigView { admin_state: state, ..c }))),
    {
        if !(1 <= id.0 && id.0 <= self.interfaces.len() as u64) {
            return Err(DeviceError::MissingInterface);
        }
        let i = (id.0 - 1) as usize;
        let mut c = clone_config(&self.interfaces[i].1);
        c.admin_state = state;
        self.update_config(i, c);
        proof {
            assert(c@ =~= InterfaceConfigView { admin_state: state, ..old(self)@.interfaces[i as int].1 });
        }
        Ok(())
    }

    /// Record the carrier state of interface `id`.
    pub fn set_link_state(&mut self, id: InterfaceId, state: LinkState) -> (r: Result<(), DeviceError>)
        requires
            device_wf(old(self)@),
        ensures
            device_wf(final(self)@),
            match slot(old(self)@, id) {
                None => r == Err::<(), DeviceError>(DeviceError::MissingInterface) && final(self)@ == old(self)@,
                Some(i) => r is Ok && final(self)@ == (DeviceView {
                    interfaces: old(self)@.interfaces.update(
                        i,
                        (Interface { link_state: state, ..old(self)@.interfaces[i].0 }, old(self)@.interfaces[i].1),
                    ),
                    ..old(self)@
                }),
            },
    {
        if !(1 <= id.0 && id.0 <= self.interfaces.len() as u64) {
            return Err(DeviceError::MissingInterface);
        }
        let i = (id.0 - 1) as usize;
        let ghost before = self.interfaces@;
        let (mut iface, cfg) = self.interfaces.remove(i);
        iface.link_state = state;
        self.interfaces.insert(i, (iface, cfg));
        proof {
            assert(self.interfaces@ =~= before.update(i as int, (iface, cfg)));
            assert(interfaces_view(self.interfaces@) =~= interfaces_view(before).update(i as int, (iface, cfg@)));
            assert(self@ =~= DeviceView {
                interfaces: old(self)@.interfaces.update(
                    i as int,
                    (Interface { link_state: state, ..old(self)@.interfaces[i as int].0 }, old(self)@.interfaces[i as int].1),
                ),
                ..old(self)@
            });
        }
        Ok(())
    }

    /// Whether interface `id` is a switchport.
    pub fn is_switchport(&self, id: InterfaceId) -> (r: bool)
        requires
            device_wf(self@),
        ensures
            r == l2_spec(self@, id),
    {
        if !(1 <= id.0 && id.0 <= self.interfaces.len() as u64) {
            return false;
        }
        let i = (id.0 - 1) as usize;
        assert(self@.interfaces[i as int].1 == self.interfaces@[i as int].1@);
        self.interfaces[i].1.switchport.is_some()
    }

    fn bridgeable_exec(&self, id: InterfaceId) -> (r: bool)
        requires
            device_wf(self@),
        ensures
            r == bridgeable(self@, id),
    {
        if !(1 <= id.0 && id.0 <= self.interfaces.len() as u64) {
            return false;
        }
        let kind = self.interfaces[(id.0 - 1) as usize].0.kind;
        kind.is_ethernet() || kind == InterfaceKind::PortChannel
    }

    /// Make Ethernet port or port channel `id` a switchport of a switching device; its
    /// addressing goes away and an existing switchport configuration is kept.
    pub fn enable_switchport(&mut self, id: InterfaceId) -> (r: Result<(), DeviceError>)
        requires
            device_wf(old(self)@),
        ensures
            device_wf(final(self)@),
            outcome(final(self)@, r, enable_spec(old(self)@, id)),
    {
        if !self.supports_switching() || !self.bridgeable_exec(id) {
            return Err(DeviceError::NotSwitchport);
        }
        let i = (id.0 - 1) as usize;
        assert(self@.interfaces[i as int].1 == self.interfaces@[i as int].1@);
        let mut c = clone_config(&self.interfaces[i].1);
        c.ipv4 = None;
        c.dhcp_client = false;
        if c.switchport.is_none() {
            c.switchport = Some(default_switchport_exec());
        }
        self.update_config(i, c);
        self.sync_channel_switchports(id);
        proof {
            let old_c = old(self)@.interfaces[i as int].1;
            let sp = match old_c.switchport {
                Some(s) => Some(s),
                None => Some(default_switchport()),
            };
            assert(c@ =~= InterfaceConfigView { ipv4: None, dhcp_client: false, switchport: sp, ..old_c });
        }
        Ok(())
    }

    /// Make Ethernet port or port channel `id` of a Layer 3 switch a routed port.
    pub fn disable_switchport(&mut self, id: InterfaceId) -> (r: Result<(), DeviceError>)
        requires
            device_wf(old(self)@),
        ensures
            device_wf(final(self)@),
            outcome(final(self)@, r, disable_spec(old(self)@, id)),
    {
        if self.device_type != DeviceType::Layer3Switch || !self.bridgeable_exec(id) {
            return Err(DeviceError::NotRoutedPort);
        }
        let i = (id.0 - 1) as usize;
        let mut c = clone_config(&self.interfaces[i].1);
        c.switchport = None;
        self.update_config(i, c);
        self.sync_channel_switchports(id);
        proof {
            assert(c@ =~= InterfaceConfigView { switchport: None, ..old(self)@.interfaces[i as int].1 });
        }
        Ok(())
    }

    /// Replace the switchport configuration of `id` by `sp`, passing it to bundle members.
    fn edit_switchport(&mut self, id: InterfaceId, sp: SwitchportConfig)
        requires
            device_wf(old(self)@),
            l2_spec(old(self)@, id),
        ensures
            device_wf(final(self)@),
            final(self)@ == synced(
                with_config(old(self)@, id.0 - 1, InterfaceConfigView { switchport: Some(sp@), ..old(self)@.interfaces[id.0 - 1].1 }),
                id,
            ),
    {
        let i = (id.0 - 1) as usize;
        let mut c = clone_config(&self.interfaces[i].1);
        c.switchport = Some(sp);
        proof {
            assert(c@ =~= InterfaceConfigView { switchport: Some(sp@), ..old(self)@.interfaces[i as int].1 });
        }
        self.update_config(i, c);
        self.sync_channel_switchports(id);
    }

    /// The current switchport configuration of `id`, or the error for its absence.
    fn switchport_of(&self, id: InterfaceId) -> (r: Result<SwitchportConfig, DeviceError>)
        requires
            device_wf(self@),
        ensures
            match slot(self@, id) {
                None => r == Err::<SwitchportConfig, DeviceError>(DeviceError::MissingInterface),
                Some(i) => match self@.interfaces[i].1.switchport {
                    None => r == Err::<SwitchportConfig, DeviceError>(DeviceError::NotSwitchport),
                    Some(s) => r matches Ok(c) && c@ == s,
                },
            },
    {
        if !(1 <= id.0 && id.0 <= self.interfaces.len() as u64) {
            return Err(DeviceError::MissingInterface);
        }
        let i = (id.0 - 1) as usize;
        assert(self@.interfaces[i as int].1 == self.interfaces@[i as int].1@);
        match &self.interfaces[i].1.switchport {
            None => Err(DeviceError::NotSwitchport),
            Some(s) => Ok(clone_switchport(s)),
        }
    }

    /// Select the access or trunk mode of switchport `id`; a routed port of a Layer 3
    /// switch becomes a switchport first.
    pub fn set_switchport_mode(&mut self, id: InterfaceId, mode: SwitchportMode) -> (r: Result<(), DeviceError>)
        requires
            device_wf(old(self)@),
        ensures
            device_wf(final(self)@),
            outcome(final(self)@, r, set_mode_spec(old(self)@, id, mode)),
    {
        if self.device_type == DeviceType::Layer3Switch && !self.is_switchport(id) {
            self.enable_switchport(id)?;
        }
        let ghost mid = self@;
        let mut sp = self.switchport_of(id)?;
        sp.mode = mode;
        self.edit_switchport(id, sp);
        proof {
            let s = mid.interfaces[id.0 - 1].1.switchport->0;
            assert(sp@ =~= SwitchportView { mode, ..s });
        }
        Ok(())
    }

    /// Put access switchport `id` in `vlan`.
    pub fn set_access_vlan(&mut self, id: InterfaceId, vlan: VlanId) -> (r: Result<(), DeviceError>)
        requires
            device_wf(old(self)@),
        ensures
            device_wf(final(self)@),
            outcome(final(self)@, r, switchport_edit_spec(old(self)@, id, (|s: SwitchportView| SwitchportView { access_vlan: vlan@, ..s }))),
    {
        let mut sp = self.switchport_of(id)?;
        sp.access_vlan = vlan;
        let ghost s = old(self)@.interfaces[id.0 - 1].1.switchport->0;
        assert(sp@ =~= SwitchportView { access_vlan: vlan@, ..s });
        self.edit_switchport(id, sp);
        Ok(())
    }

    /// Carry `vlan` untagged on trunk `id`.
    pub fn set_native_vlan(&mut self, id: InterfaceId, vlan: VlanId) -> (r: Result<(), DeviceError>)
        requires
            device_wf(old(self)@),
        ensures
            device_wf(final(self)@),
            outcome(final(self)@, r, switchport_edit_spec(old(self)@, id, (|s: SwitchportView| SwitchportView { native_vlan: vlan@, ..s }))),
    {
        let mut sp = self.switchport_of(id)?;
        sp.native_vlan = vlan;
        let ghost s = old(self)@.interfaces[id.0 - 1].1.switchport->0;
        assert(sp@ =~= SwitchportView { native_vlan: vlan@, ..s });
        self.edit_switchport(id, sp);
        Ok(())
    }

    /// Allow only `vlans` on trunk `id`.
    pub fn set_trunk_allowed_vlans(&mut self, id: InterfaceId, vlans: Vec<VlanId>) -> (r: Result<(), DeviceError>)
        requires
            device_wf(old(self)@),
        ensures
            device_wf(final(self)@),
            outcome(
                final(self)@,
                r,
                switchport_edit_spec(old(self)@, id, (|s: SwitchportView| SwitchportView { allowed: Some(vlan_set(vlans@)), ..s })),
            ),
    {
        let mut sp = self.switchport_of(id)?;
        let ghost list = vlans@;
        sp.trunk_allowed_vlans = Some(vlans);
        let ghost s = old(self)@.interfaces[id.0 - 1].1.switchport->0;
        assert(sp@ =~= SwitchportView { allowed: Some(vlan_set(list)), ..s });
        self.edit_switchport(id, sp);
        Ok(())
    }

    /// Remove interface `id` from its bundle; the port channel stays.
    pub fn clear_channel_group(&mut self, id: InterfaceId) -> (r: Result<(), DeviceError>)
        requires
            device_wf(old(self)@),
        ensures
            device_wf(final(self)@),
            outcome(final(self)@, r, edit_spec(old(self)@, id, (|c: InterfaceConfigView| InterfaceConfigView { channel_group: None, ..c }))),
    {
        if !(1 <= id.0 && id.0 <= self.interfaces.len() as u64) {
            return Err(DeviceError::MissingInterface);
        }
        let i = (id.0 - 1) as usize;
        let mut c = clone_config(&self.interfaces[i].1);
        c.channel_group = None;
        self.update_config(i, c);
        proof {
            assert(c@ =~= InterfaceConfigView { channel_group: None, ..old(self)@.interfaces[i as int].1 });
        }
        Ok(())
    }
}

fn vlan_listed(list: &Vec<VlanId>, x: VlanId) -> (r: bool)
    ensures
        r == vlan_set(list@).contains(x@),
{
    let mut i: usize = 0;
    while i < list.len()
        invariant
            i <= list@.len(),
            forall|j: int| 0 <= j < i ==> (#[trigger] list@[j])@ != x@,
        decreases list@.len() - i,
    {
        if list[i].get() == x.get() {
            assert(vlan_set(list@).contains(x@)) by {
                assert(list@[i as int]@ == x@);
            }
            return true;
        }
        i = i + 1;
    }
    false
}

fn covers(a: &Vec<VlanId>, b: &Vec<VlanId>) -> (r: bool)
    ensures
        r == vlan_set(a@).subset_of(vlan_set(b@)),
{
    let mut i: usize = 0;
    while i < a.len()
        invariant
            i <= a@.len(),
            forall|j: int| 0 <= j < i ==> vlan_set(b@).contains((#[trigger] a@[j])@),
        decreases a@.len() - i,
    {
        if !vlan_listed(b, a[i]) {
            assert(vlan_set(a@).contains(a@[i as int]@));
            return false;
        }
        i = i + 1;
    }
    assert forall|x: u16| vlan_set(a@).contains(x) implies vlan_set(b@).contains(x) by {
        let j = choose|j: int| 0 <= j < a@.len() && (#[trigger] a@[j])@ == x;
    }
    true
}

fn same_policy(a: &Option<SwitchportConfig>, b: &Option<SwitchportConfig>) -> (r: bool)
    ensures
        r == (policy_view(*a) == policy_view(*b)),
{
    match (a, b) {
        (None, None) => true,
        (Some(x), Some(y)) => {
            if x.mode != y.mode || x.access_vlan.get() != y.access_vlan.get() || x.native_vlan.get() != y.native_vlan.get() {
                return false;
            }
            match (&x.trunk_allowed_vlans, &y.trunk_allowed_vlans) {
                (None, None) => {
                    assert(x@ =~= y@);
                    true
                },
                (Some(p), Some(q)) => {
                    let same = covers(p, q) && covers(q, p);
                    proof {
                        if same {
                            assert(vlan_set(p@) =~= vlan_set(q@));
                            assert(x@ =~= y@);
                        } else {
                            if vlan_set(p@) == vlan_set(q@) {
                                assert(vlan_set(p@).subset_of(vlan_set(q@)));
                            }
                        }
                    }
                    same
                },
                _ => false,
            }
        },
        _ => false,
    }
}

impl Device {
    fn plain_up_exec(&self, j: usize) -> (r: bool)
        requires
            j < self@.interfaces.len(),
        ensures
            r == plain_up(self@, j as int),
    {
        assert(self@.interfaces[j as int].1 == self.interfaces@[j as int].1@);
        let iface = &self.interfaces[j].0;
        if self.interfaces[j].1.admin_state != AdminState::Up {
            return false;
        }
        match iface.kind {
            InterfaceKind::Loopback => true,
            InterfaceKind::GigabitEthernet | InterfaceKind::TenGigabitEthernet | InterfaceKind::Vlan => iface.link_state
                == LinkState::Up,
            _ => false,
        }
    }

    /// The active members of port channel `logical`, in identifier order.
    pub fn channel_members(&self, logical: InterfaceId) -> (r: Vec<InterfaceId>)
        requires
            device_wf(self@),
        ensures
            r@ == members_spec(self@, logical),
    {
        let mut out: Vec<InterfaceId> = Vec::new();
        if !(1 <= logical.0 && logical.0 <= self.interfaces.len() as u64) {
            return out;
        }
        let li = (logical.0 - 1) as usize;
        let ghost v = self@;
        assert(v.interfaces[li as int].1 == self.interfaces@[li as int].1@);
        let number = match self.interfaces[li].1.port_channel {
            None => {
                return out;
            },
            Some(n) => n,
        };
        let mut j: usize = 0;
        while j < self.interfaces.len()
            invariant
                v == self@,
                device_wf(v),
                li < v.interfaces.len(),
                v.interfaces.len() == self.interfaces@.len(),
                j <= v.interfaces.len(),
                out@ == members_upto(v, li as int, number, j as int),
            decreases v.interfaces.len() - j,
        {
            assert(v.interfaces[j as int].1 == self.interfaces@[j as int].1@);
            assert(v.interfaces[li as int].1 == self.interfaces@[li as int].1@);
            let c = &self.interfaces[j].1;
            let member = match c.channel_group {
                Some(g) => g.number == number && g.mode == ChannelMode::On,
                None => false,
            };
            let active = member && same_policy(&c.switchport, &self.interfaces[li].1.switchport) && c.mtu
                == self.interfaces[li].1.mtu && self.plain_up_exec(j);
            if active {
                out.push(InterfaceId((j + 1) as u64));
            }
            j = j + 1;
        }
        out
    }

    /// Whether interface `id` has line protocol.
    pub fn protocol_up(&self, id: InterfaceId) -> (r: bool)
        requires
            device_wf(self@),
        ensures
            r == up_spec(self@, id),
    {
        if !(1 <= id.0 && id.0 <= self.interfaces.len() as u64) {
            return false;
        }
        let i = (id.0 - 1) as usize;
        let ghost v = self@;
        assert(v.interfaces[i as int].1 == self.interfaces@[i as int].1@);
        if self.interfaces[i].1.admin_state != AdminState::Up {
            return false;
        }
        match self.interfaces[i].0.kind {
            InterfaceKind::PortChannel => self.channel_members(id).len() > 0,
            InterfaceKind::EthernetSubinterface => {
                if self.interfaces[i].1.dot1q.is_none() {
                    return false;
                }
                match self.interfaces[i].1.parent {
                    None => false,
                    Some(p) => {
                        if !(1 <= p.0 && p.0 <= self.interfaces.len() as u64) {
                            return false;
                        }
                        let pi = (p.0 - 1) as usize;
                        assert(v.interfaces[pi as int].1 == self.interfaces@[pi as int].1@);
                        self.plain_up_exec(pi) && self.interfaces[pi].1.switchport.is_none()
                    },
                }
            },
            _ => self.plain_up_exec(i),
        }
    }

    /// Whether interface `id` is a port channel.
    pub fn is_port_channel(&self, id: InterfaceId) -> (r: bool)
        requires
            device_wf(self@),
        ensures
            r == match slot(self@, id) {
                Some(i) => self@.interfaces[i].1.port_channel is Some,
                None => false,
            },
    {
        if !(1 <= id.0 && id.0 <= self.interfaces.len() as u64) {
            return false;
        }
        let i = (id.0 - 1) as usize;
        assert(self@.interfaces[i as int].1 == self.interfaces@[i as int].1@);
        self.interfaces[i].1.port_channel.is_some()
    }

    /// The VLAN that VLAN interface `id` stands for.
    pub fn svi_vlan(&self, id: InterfaceId) -> (r: Option<VlanId>)
        requires
            device_wf(self@),
        ensures
            match svi_spec(self@, id) {
                Some(n) => r matches Some(x) && x@ == n,
                None => r is None,
            },
    {
        if !(1 <= id.0 && id.0 <= self.interfaces.len() as u64) {
            return None;
        }
        let i = (id.0 - 1) as usize;
        let ghost v = self@;
        assert(v.interfaces[i as int].1 == self.interfaces@[i as int].1@);
        if self.interfaces[i].0.kind != InterfaceKind::Vlan {
            return None;
        }
        let name = crate::text::str_chars(self.interfaces[i].1.name.as_str());
        proof {
            reveal_strlit("Vlan");
        }
        if name.len() <= 4 || name[0] != 'V' || name[1] != 'l' || name[2] != 'a' || name[3] != 'n' {
            proof {
                if name@.len() > 4 {
                    assert(name@.take(4) != "Vlan"@) by {
                        if name@.take(4) == "Vlan"@ {
                            assert(name@.take(4)[0] == name@[0]);
                            assert(name@.take(4)[1] == name@[1]);
                            assert(name@.take(4)[2] == name@[2]);
                            assert(name@.take(4)[3] == name@[3]);
                        }
                    }
                }
            }
            return None;
        }
        assert(name@.take(4) =~= "Vlan"@);
        assert(name@.subrange(4, name@.len() as int) =~= name@.skip(4));
        match crate::decimal::parse_decimal(&name, 4, name.len(), 0xffff) {
            None => None,
            Some(n) => {
                if 1 <= n && n <= 4094 {
                    match VlanId::new(n as u16) {
                        Ok(x) => Some(x),
                        Err(_) => None,
                    }
                } else {
                    None
                }
            },
        }
    }

    /// The first up VLAN interface standing for `vlan`.
    pub fn active_svi(&self, vlan: VlanId) -> (r: Option<InterfaceId>)
        requires
            device_wf(self@),
        ensures
            match r {
                Some(id) => svi_hit(self@, vlan@, id.0 as int) && forall|k: int| 1 <= k < id.0 ==> !#[trigger] svi_hit(self@, vlan@, k),
                None => forall|k: int| 1 <= k <= self@.interfaces.len() ==> !#[trigger] svi_hit(self@, vlan@, k),
            },
    {
        let mut j: usize = 0;
        while j < self.interfaces.len()
            invariant
                device_wf(self@),
                j <= self@.interfaces.len(),
                self@.interfaces.len() == self.interfaces@.len(),
                forall|k: int| 1 <= k <= j ==> !#[trigger] svi_hit(self@, vlan@, k),
            decreases self@.interfaces.len() - j,
        {
            let id = InterfaceId((j + 1) as u64);
            let found = match self.svi_vlan(id) {
                Some(x) => x.get() == vlan.get(),
                None => false,
            };
            if found && self.protocol_up(id) {
                return Some(id);
            }
            j = j + 1;
        }
        None
    }

    /// Set the carrier of every VLAN interface: up when its VLAN exists and some up
    /// switchport outside any bundle carries it.
    pub fn refresh_svi_states(&mut self)
        requires
            device_wf(old(self)@),
        ensures
            device_wf(final(self)@),
            final(self)@ == refreshed(old(self)@),
    {
        let ghost v = self@;
        let mut states: Vec<bool> = Vec::new();
        let mut i: usize = 0;
        while i < self.interfaces.len()
            invariant
                v == self@,
                device_wf(v),
                i <= v.interfaces.len(),
                v.interfaces.len() == self.interfaces@.len(),
                states@.len() == i,
                forall|k: int| 0 <= k < i ==> #[trigger] states@[k] == svi_should_be_up(v, k),
            decreases v.interfaces.len() - i,
        {
            let up = match self.svi_vlan(InterfaceId((i + 1) as u64)) {
                None => false,
                Some(vlan) => vlan_named(&self.vlans, vlan).is_some() && self.carrier_exists(vlan),
            };
            states.push(up);
            i = i + 1;
        }
        let mut k: usize = 0;
        while k < self.interfaces.len()
            invariant
                device_wf(self@),
                self@.interfaces.len() == v.interfaces.len(),
                self.interfaces@.len() == v.interfaces.len(),
                k <= v.interfaces.len(),
                states@.len() == v.interfaces.len(),
                forall|m: int| 0 <= m < v.interfaces.len() ==> #[trigger] states@[m] == svi_should_be_up(v, m),
                forall|m: int| 0 <= m < k ==> #[trigger] self@.interfaces[m] == refreshed(v).interfaces[m],
                forall|m: int| k <= m < v.interfaces.len() ==> #[trigger] self@.interfaces[m] == v.interfaces[m],
                self@.id == v.id,
                self@.device_type == v.device_type,
                self@.hostname == v.hostname,
                self@.ip_routing == v.ip_routing,
                self@.vlans == v.vlans,
                self@.counters == v.counters,
                self@.startup == v.startup,
            decreases v.interfaces.len() - k,
        {
            if self.interfaces[k].0.kind == InterfaceKind::Vlan {
                let state = if states[k] {
                    LinkState::Up
                } else {
                    LinkState::Down
                };
                let ghost before = self@;
                let _ = self.set_link_state(InterfaceId((k + 1) as u64), state);
                proof {
                    assert forall|m: int| 0 <= m < k + 1 implies #[trigger] self@.interfaces[m] == refreshed(v).interfaces[m] by {
                        if m < k {
                            assert(self@.interfaces[m] == before.interfaces[m]);
                        }
                    }
                    assert forall|m: int| k + 1 <= m < v.interfaces.len() implies #[trigger] self@.interfaces[m] == v.interfaces[m] by {
                        assert(self@.interfaces[m] == before.interfaces[m]);
                    }
                }
            } else {
                assert(self@.interfaces[k as int] == refreshed(v).interfaces[k as int]);
            }
            k = k + 1;
        }
        proof {
            assert(self@.interfaces =~= refreshed(v).interfaces);
            assert(self@ =~= refreshed(v));
        }
    }

    fn carrier_exists(&self, vlan: VlanId) -> (r: bool)
        requires
            device_wf(self@),
        ensures
            r == exists|j: int| 0 <= j < self@.interfaces.len() && #[trigger] carrier_port(self@, j, vlan@),
    {
        let ghost v = self@;
        let mut j: usize = 0;
        while j < self.interfaces.len()
            invariant
                v == self@,
                device_wf(v),
                j <= v.interfaces.len(),
                v.interfaces.len() == self.interfaces@.len(),
                forall|k: int| 0 <= k < j ==> !#[trigger] carrier_port(v, k, vlan@),
            decreases v.interfaces.len() - j,
        {
            assert(v.interfaces[j as int].1 == self.interfaces@[j as int].1@);
            let hit = match &self.interfaces[j].1.switchport {
                None => false,
                Some(sp) => {
                    let carried = match sp.mode {
                        SwitchportMode::Access => sp.access_vlan.get() == vlan.get(),
                        SwitchportMode::Trunk => match &sp.trunk_allowed_vlans {
                            None => true,
                            Some(list) => vlan_listed(list, vlan),
                        },
                    };
                    self.interfaces[j].1.channel_group.is_none() && carried && self.protocol_up(InterfaceId((j + 1) as u64))
                },
            };
            if hit {
                assert(carrier_port(v, j as int, vlan@));
                return true;
            }
            j = j + 1;
        }
        false
    }
}

fn prefix_is(chars: &Vec<char>, prefix: &Vec<char>) -> (r: bool)
    ensures
        r == (chars@.len() >= prefix@.len() && chars@.take(prefix@.len() as int) == prefix@),
{
    if chars.len() < prefix.len() {
        return false;
    }
    let mut i: usize = 0;
    while i < prefix.len()
        invariant
            prefix@.len() <= chars@.len(),
            i <= prefix@.len(),
            forall|j: int| 0 <= j < i ==> chars@[j] == prefix@[j],
        decreases prefix@.len() - i,
    {
        if chars[i] != prefix[i] {
            assert(chars@.take(prefix@.len() as int)[i as int] != prefix@[i as int]);
            return false;
        }
        i = i + 1;
    }
    assert(chars@.take(prefix@.len() as int) =~= prefix@);
    true
}

fn channel_number_exec(chars: &Vec<char>) -> (r: Option<u16>)
    ensures
        r == channel_number(chars@),
{
    let prefix = crate::text::str_chars("Port-channel");
    proof {
        reveal_strlit("Port-channel");
    }
    assert(prefix@.len() == 12);
    if chars.len() <= 12 || !prefix_is(chars, &prefix) {
        return None;
    }
    assert(chars@.subrange(12, chars@.len() as int) =~= chars@.skip(12));
    match crate::decimal::parse_decimal(chars, 12, chars.len(), 0xffff) {
        None => None,
        Some(n) => Some(n as u16),
    }
}

fn channel_name_exec(n: u16) -> (r: String)
    ensures
        r@ == channel_name(n),
{
    let mut chars = crate::text::str_chars("Port-channel");
    crate::decimal::push_decimal(&mut chars, n as u32);
    crate::text::string_from_chars(&chars)
}

impl Device {
    /// Replace interface slot `i` and its configuration.
    fn update_slot(&mut self, i: usize, iface: Interface, cfg: InterfaceConfig)
        requires
            device_wf(old(self)@),
            i < old(self)@.interfaces.len(),
            iface.id == old(self)@.interfaces[i as int].0.id,
        ensures
            device_wf(final(self)@),
            final(self)@ == (DeviceView { interfaces: old(self)@.interfaces.update(i as int, (iface, cfg@)), ..old(self)@ }),
    {
        let ghost before = self.interfaces@;
        assert(before.len() == self@.interfaces.len());
        let _ = self.interfaces.remove(i);
        self.interfaces.insert(i, (iface, cfg));
        proof {
            assert(self.interfaces@ =~= before.update(i as int, (iface, cfg)));
            assert(interfaces_view(self.interfaces@) =~= interfaces_view(before).update(i as int, (iface, cfg@)));
            assert(self@ =~= DeviceView { interfaces: old(self)@.interfaces.update(i as int, (iface, cfg@)), ..old(self)@ });
        }
    }

    fn create_port_channel(&mut self, canonical: &String) -> (r: Result<InterfaceId, DeviceError>)
        requires
            device_wf(old(self)@),
        ensures
            device_wf(final(self)@),
            outcome(final(self)@, r, create_channel_spec(old(self)@, canonical@)),
    {
        if !self.supports_routing() && !self.supports_switching() {
            return Err(DeviceError::InvalidChannel);
        }
        let chars = crate::text::str_chars(canonical.as_str());
        let number = match channel_number_exec(&chars) {
            None => {
                return Err(DeviceError::InvalidChannel);
            },
            Some(n) => n,
        };
        let id = self.insert_interface(canonical.clone(), InterfaceKind::PortChannel, InterfaceMedia::Virtual)?;
        let ghost w = self@;
        proof {
            if find_spec(old(self)@, canonical@) is Some {
                let k = choose|k: int| first_named(old(self)@, canonical@, k);
            }
        }
        let i = (id.0 - 1) as usize;
        let l2 = self.supports_switching();
        let mut c = clone_config(&self.interfaces[i].1);
        c.port_channel = Some(number);
        c.admin_state = AdminState::Up;
        c.switchport_capable = l2;
        c.switchport = if l2 {
            Some(default_switchport_exec())
        } else {
            None
        };
        proof {
            assert(c@ =~= InterfaceConfigView {
                port_channel: Some(number),
                admin_state: AdminState::Up,
                switchport_capable: l2,
                switchport: if l2 {
                    Some(default_switchport())
                } else {
                    None
                },
                ..w.interfaces[i as int].1
            });
        }
        self.update_config(i, c);
        Ok(id)
    }

    fn create_subinterface(&mut self, canonical: &String) -> (r: Result<InterfaceId, DeviceError>)
        requires
            device_wf(old(self)@),
        ensures
            device_wf(final(self)@),
            outcome(final(self)@, r, create_sub_spec(old(self)@, canonical@)),
    {
        if !self.supports_routing() {
            return Err(DeviceError::NotRoutedPort);
        }
        let chars = crate::text::str_chars(canonical.as_str());
        assert(chars@.skip(0) =~= chars@);
        let k = match crate::interface_name::find_char(&chars, 0, '.') {
            None => {
                proof {
                    if exists|k: int| first_dot(chars@, k) {
                        let k = choose|k: int| first_dot(chars@, k);
                        assert(crate::interface_name::first_index(chars@, '.', k));
                    }
                }
                return Err(DeviceError::InvalidInterface(canonical.clone()));
            },
            Some(k) => k,
        };
        proof {
            assert(first_dot(chars@, k as int));
            let c = choose|c: int| first_dot(chars@, c);
            if c < k {
                assert(chars@[c] != '.');
            } else if c > k {
                assert(chars@[k as int] != '.');
            }
        }
        let pname = crate::interface_name::copy_chars(&chars, 0, k);
        assert(pname@ =~= chars@.take(k as int));
        let parent = match self.find_chars(&pname) {
            None => {
                return Err(DeviceError::InvalidInterface(crate::text::string_from_chars(&pname)));
            },
            Some(p) => p,
        };
        proof {
            let q = choose|q: int| first_named(old(self)@, pname@, q);
        }
        if self.is_switchport(parent) {
            return Err(DeviceError::NotRoutedPort);
        }
        let mac = self.interfaces[(parent.0 - 1) as usize].0.mac_address;
        let id = self.insert_interface(canonical.clone(), InterfaceKind::EthernetSubinterface, InterfaceMedia::Virtual)?;
        proof {
            if find_spec(old(self)@, canonical@) is Some {
                let q = choose|q: int| first_named(old(self)@, canonical@, q);
            }
        }
        let i = (id.0 - 1) as usize;
        let ghost w = self@;
        assert(w.interfaces[i as int].1 == self.interfaces@[i as int].1@);
        let mut iface = self.interfaces[i].0;
        iface.mac_address = mac;
        let mut c = clone_config(&self.interfaces[i].1);
        c.parent = Some(parent);
        c.admin_state = AdminState::Up;
        proof {
            assert(c@ =~= InterfaceConfigView { parent: Some(parent), admin_state: AdminState::Up, ..w.interfaces[i as int].1 });
        }
        self.update_slot(i, iface, c);
        Ok(id)
    }

    /// Enter interface `name`: an existing interface is returned; hardware cannot be
    /// created; subinterfaces, port channels, loopbacks and VLAN interfaces are created.
    pub fn ensure_interface(&mut self, name: &str) -> (r: Result<InterfaceId, DeviceError>)
        requires
            device_wf(old(self)@),
        ensures
            device_wf(final(self)@),
            outcome(final(self)@, r, ensure_spec(old(self)@, name@)),
    {
        let (canonical, kind) = canonical_interface(name)?;
        if let Some(id) = self.find_interface(canonical.as_str()) {
            return Ok(id);
        }
        if kind.is_physical() {
            return Err(DeviceError::InvalidInterface(name.to_owned()));
        }
        match kind {
            InterfaceKind::EthernetSubinterface => self.create_subinterface(&canonical),
            InterfaceKind::PortChannel => self.create_port_channel(&canonical),
            _ => self.insert_interface(canonical, kind, InterfaceMedia::Virtual),
        }
    }

    fn has_child(&self, id: InterfaceId) -> (r: bool)
        ensures
            r == exists|j: int| 0 <= j < self@.interfaces.len() && #[trigger] self@.interfaces[j].1.parent == Some(id),
    {
        let ghost v = self@;
        let mut j: usize = 0;
        while j < self.interfaces.len()
            invariant
                v == self@,
                j <= v.interfaces.len(),
                v.interfaces.len() == self.interfaces@.len(),
                forall|k: int| 0 <= k < j ==> #[trigger] v.interfaces[k].1.parent != Some(id),
            decreases v.interfaces.len() - j,
        {
            assert(v.interfaces[j as int].1 == self.interfaces@[j as int].1@);
            let hit = match self.interfaces[j].1.parent {
                Some(p) => p.0 == id.0,
                None => false,
            };
            if hit {
                return true;
            }
            j = j + 1;
        }
        false
    }

    /// Count the other members of bundle `n` and whether any conflicts with slot `i`
    /// joining in `mode`.
    fn scan_bundle(&self, i: usize, n: u16, mode: ChannelMode) -> (r: (usize, bool))
        requires
            i < self@.interfaces.len(),
        ensures
            r.0 == bundle_count(self@, i as int, n, self@.interfaces.len() as int),
            r.1 == exists|j: int| 0 <= j < self@.interfaces.len() && #[trigger] member_conflict(
                self@,
                i as int,
                n,
                self@.interfaces[i as int].0.kind,
                mode,
                j,
            ),
    {
        let ghost v = self@;
        let kind = self.interfaces[i].0.kind;
        let mut count: usize = 0;
        let mut conflict = false;
        let mut j: usize = 0;
        while j < self.interfaces.len()
            invariant
                v == self@,
                kind == v.interfaces[i as int].0.kind,
                j <= v.interfaces.len(),
                v.interfaces.len() == self.interfaces@.len(),
                count == bundle_count(v, i as int, n, j as int),
                count <= j,
                conflict == exists|k: int| 0 <= k < j && #[trigger] member_conflict(v, i as int, n, kind, mode, k),
            decreases v.interfaces.len() - j,
        {
            assert(v.interfaces[j as int].1 == self.interfaces@[j as int].1@);
            if j != i {
                if let Some(g) = self.interfaces[j].1.channel_group {
                    if g.number == n {
                        count = count + 1;
                        if self.interfaces[j].0.kind != kind || (g.mode == ChannelMode::On) != (mode == ChannelMode::On) {
                            conflict = true;
                            assert(member_conflict(v, i as int, n, kind, mode, j as int));
                        }
                    }
                }
            }
            proof {
                assert forall|k: int| 0 <= k < j + 1 && #[trigger] member_conflict(v, i as int, n, kind, mode, k) implies conflict by {
                    if k < j {
                    }
                }
            }
            j = j + 1;
        }
        (count, conflict)
    }

    /// Add Ethernet port `id` to bundle `number` in `mode`, creating the port channel when
    /// missing.
    pub fn set_channel_group(&mut self, id: InterfaceId, number: u16, mode: ChannelMode) -> (r: Result<(), DeviceError>)
        requires
            device_wf(old(self)@),
        ensures
            device_wf(final(self)@),
            outcome(final(self)@, r, set_group_spec(old(self)@, id, number, mode)),
    {
        if !(1 <= number && number <= 4096) || !(1 <= id.0 && id.0 <= self.interfaces.len() as u64)
            || !self.interfaces[(id.0 - 1) as usize].0.kind.is_ethernet() || (!self.supports_routing()
            && !self.supports_switching()) {
            return Err(DeviceError::InvalidChannel);
        }
        let i = (id.0 - 1) as usize;
        let ghost v = self@;
        assert(v.interfaces[i as int].1 == self.interfaces@[i as int].1@);
        let other_group = match self.interfaces[i].1.channel_group {
            Some(g) => g.number != number,
            None => false,
        };
        if self.interfaces[i].1.ipv4.is_some() || self.interfaces[i].1.dhcp_client || other_group || self.has_child(id) {
            return Err(DeviceError::InvalidChannel);
        }
        let (count, conflict) = self.scan_bundle(i, number, mode);
        if count >= 8 || conflict {
            return Err(DeviceError::InvalidChannel);
        }
        let mut joined = clone_config(&self.interfaces[i].1);
        let policy = clone_policy(&self.interfaces[i].1.switchport);
        let mtu = self.interfaces[i].1.mtu;
        joined.channel_group = Some(ChannelMembership { number, mode });
        proof {
            assert(joined@ =~= InterfaceConfigView {
                channel_group: Some(ChannelMembership { number, mode }),
                ..v.interfaces[i as int].1
            });
        }
        let name = channel_name_exec(number);
        match self.find_interface(name.as_str()) {
            Some(l) => {
                proof {
                    let q = choose|q: int| first_named(v, name@, q);
                }
                let li = (l.0 - 1) as usize;
                assert(v.interfaces[li as int].1 == self.interfaces@[li as int].1@);
                if !same_policy(&self.interfaces[li].1.switchport, &policy) || self.interfaces[li].1.mtu != mtu {
                    return Err(DeviceError::InvalidChannel);
                }
                self.update_config(i, joined);
            },
            None => {
                let l = self.create_port_channel(&name)?;
                let ghost w = self@;
                proof {
                    assert(channel_number(name@) is Some);
                }
                let li = (l.0 - 1) as usize;
                assert(w.interfaces[li as int].1 == self.interfaces@[li as int].1@);
                let mut lc = clone_config(&self.interfaces[li].1);
                lc.switchport = policy;
                lc.mtu = mtu;
                proof {
                    assert(lc@ =~= InterfaceConfigView {
                        switchport: v.interfaces[i as int].1.switchport,
                        mtu: v.interfaces[i as int].1.mtu,
                        ..w.interfaces[li as int].1
                    });
                }
                self.update_config(li, lc);
                self.update_config(i, joined);
            },
        }
        Ok(())
    }

    /// Give subinterface `id` the 802.1Q encapsulation `vlan`, optionally native; VLANs are
    /// unique per parent and a parent has at most one native subinterface.
    pub fn set_dot1q(&mut self, id: InterfaceId, vlan: VlanId, native: bool) -> (r: Result<(), DeviceError>)
        requires
            device_wf(old(self)@),
        ensures
            device_wf(final(self)@),
            outcome(final(self)@, r, set_dot1q_spec(old(self)@, id, vlan@, native)),
    {
        if !(1 <= id.0 && id.0 <= self.interfaces.len() as u64) {
            return Err(DeviceError::NotSubinterface);
        }
        let i = (id.0 - 1) as usize;
        let ghost v = self@;
        assert(v.interfaces[i as int].1 == self.interfaces@[i as int].1@);
        let parent = match self.interfaces[i].1.parent {
            None => {
                return Err(DeviceError::NotSubinterface);
            },
            Some(p) => p,
        };
        let mut j: usize = 0;
        while j < self.interfaces.len()
            invariant
                v == self@,
                device_wf(v),
                slot(v, id) == Some(i as int),
                v.interfaces[i as int].1.parent == Some(parent),
                j <= v.interfaces.len(),
                v.interfaces.len() == self.interfaces@.len(),
                forall|k: int| 0 <= k < j ==> !#[trigger] dot1q_clash(v, i as int, parent, vlan@, native, k),
            decreases v.interfaces.len() - j,
        {
            assert(v.interfaces[j as int].1 == self.interfaces@[j as int].1@);
            if j != i {
                let same_parent = match self.interfaces[j].1.parent {
                    Some(p) => p.0 == parent.0,
                    None => false,
                };
                if same_parent {
                    if let Some(tag) = self.interfaces[j].1.dot1q {
                        if tag.vlan.get() == vlan.get() || (tag.native && native) {
                            assert(dot1q_clash(v, i as int, parent, vlan@, native, j as int));
                            return Err(DeviceError::DuplicateEncapsulation);
                        }
                    }
                }
            }
            j = j + 1;
        }
        let mut c = clone_config(&self.interfaces[i].1);
        c.dot1q = Some(Dot1qEncapsulation { vlan, native });
        proof {
            assert(c@ =~= InterfaceConfigView { dot1q: Some((vlan@, native)), ..v.interfaces[i as int].1 });
        }
        self.update_config(i, c);
        Ok(())
    }
}

/// An Ethernet frame as a mathematical value.
pub struct FrameView {
    pub destination: MacAddress,
    pub source: MacAddress,
    pub ethertype: EtherType,
    pub payload: Seq<u8>,
}

/// The mathematical value of a frame.
pub open spec fn fview(f: &EthernetFrame) -> FrameView {
    FrameView { destination: f.destination, source: f.source, ethertype: f.ethertype, payload: f.payload@ }
}

/// The frame with an 802.1Q tag for `vlan` inserted.
pub open spec fn tag_view(f: FrameView, vlan: u16) -> FrameView {
    FrameView {
        ethertype: EtherType::Dot1Q,
        payload: crate::frame::be16(vlan) + crate::frame::be16(crate::frame::ethertype_value(f.ethertype)) + f.payload,
        ..f
    }
}

/// The VLAN and inner frame of a tagged frame, when its tag is valid.
pub open spec fn untag_view(f: FrameView) -> Option<(u16, FrameView)> {
    match untag_fields(f.ethertype, f.payload) {
        Ok((vlan, ethertype, payload)) => Some((vlan, FrameView { ethertype, payload, ..f })),
        Err(_) => None,
    }
}

/// Whether switchport `sp` lets `vlan` through: an access port, or a trunk allowing it.
pub open spec fn admits(sp: SwitchportView, vlan: u16) -> bool {
    sp.mode == SwitchportMode::Access || match sp.allowed {
        None => true,
        Some(s) => s.contains(vlan),
    }
}

/// The VLAN and frame a switchport accepts: an untagged frame on an access port in its VLAN;
/// on a trunk, a tagged frame in its tag's VLAN and an untagged one in the native VLAN. The
/// VLAN must be let through and exist.
pub open spec fn classify_spec(v: DeviceView, id: InterfaceId, f: FrameView) -> Option<(u16, FrameView)> {
    match slot(v, id) {
        None => None,
        Some(i) => match v.interfaces[i].1.switchport {
            None => None,
            Some(sp) => {
                let tagged = f.ethertype == EtherType::Dot1Q;
                let picked = match sp.mode {
                    SwitchportMode::Access => if tagged {
                        None
                    } else {
                        Some((sp.access_vlan, f))
                    },
                    SwitchportMode::Trunk => if tagged {
                        untag_view(f)
                    } else {
                        Some((sp.native_vlan, f))
                    },
                };
                match picked {
                    None => None,
                    Some((vlan, inner)) => if admits(sp, vlan) && has_key(v.vlans, vlan) {
                        Some((vlan, inner))
                    } else {
                        None
                    },
                }
            },
        },
    }
}

/// The frame a switchport sends for `vlan`: unchanged on an access port in that VLAN; on a
/// trunk allowing it, tagged unless it is the native VLAN.
pub open spec fn egress_spec(v: DeviceView, id: InterfaceId, vlan: u16, f: FrameView) -> Option<FrameView> {
    match slot(v, id) {
        None => None,
        Some(i) => match v.interfaces[i].1.switchport {
            None => None,
            Some(sp) => match sp.mode {
                SwitchportMode::Access => if sp.access_vlan == vlan {
                    Some(f)
                } else {
                    None
                },
                SwitchportMode::Trunk => if admits(sp, vlan) {
                    Some(
                        if sp.native_vlan == vlan {
                            f
                        } else {
                            tag_view(f, vlan)
                        },
                    )
                } else {
                    None
                },
            },
        },
    }
}

/// The parent and wire frame of an up subinterface: tagged with its VLAN unless native.
pub open spec fn sub_egress_spec(v: DeviceView, id: InterfaceId, f: FrameView) -> Option<(InterfaceId, FrameView)> {
    match slot(v, id) {
        None => None,
        Some(i) => match (v.interfaces[i].1.dot1q, v.interfaces[i].1.parent) {
            (Some((vlan, native)), Some(p)) => if up_spec(v, id) {
                Some(
                    (
                        p,
                        if native {
                            f
                        } else {
                            tag_view(f, vlan)
                        },
                    ),
                )
            } else {
                None
            },
            _ => None,
        },
    }
}

/// Whether slot `j` is a subinterface of `parent` for the tag `vlan` (none for untagged,
/// which selects the native subinterface).
pub open spec fn sub_matches(v: DeviceView, parent: InterfaceId, vlan: Option<u16>, j: int) -> bool {
    &&& v.interfaces[j].1.parent == Some(parent)
    &&& v.interfaces[j].1.dot1q matches Some(t) && match vlan {
        None => t.1,
        Some(x) => t.0 == x,
    }
}

/// Whether slot `j` is the first subinterface of `parent` for the tag `vlan`.
pub open spec fn first_sub(v: DeviceView, parent: InterfaceId, vlan: Option<u16>, j: int) -> bool {
    &&& 0 <= j < v.interfaces.len()
    &&& sub_matches(v, parent, vlan, j)
    &&& forall|k: int| 0 <= k < j ==> !#[trigger] sub_matches(v, parent, vlan, k)
}

/// The logical interface and frame a routed port delivers: the subinterface for the frame's
/// tag (or the native one for an untagged frame) when it is up, else the port itself for an
/// untagged frame.
pub open spec fn routed_ingress_spec(v: DeviceView, parent: InterfaceId, f: FrameView) -> Option<(InterfaceId, FrameView)> {
    match ingress_split(f) {
        None => None,
        Some((vlan, inner)) => if exists|j: int| first_sub(v, parent, vlan, j) {
            let id = InterfaceId(((choose|j: int| first_sub(v, parent, vlan, j)) + 1) as u64);
            if up_spec(v, id) {
                Some((id, inner))
            } else {
                None
            }
        } else if f.ethertype != EtherType::Dot1Q {
            Some((parent, inner))
        } else {
            None
        },
    }
}

/// The tag and inner frame of a received frame: a tagged frame loses its valid tag, an
/// untagged frame has none.
pub open spec fn ingress_split(f: FrameView) -> Option<(Option<u16>, FrameView)> {
    if f.ethertype == EtherType::Dot1Q {
        match untag_view(f) {
            None => None,
            Some((vlan, inner)) => Some((Some(vlan), inner)),
        }
    } else {
        Some((None, f))
    }
}

/// The flow hash of a byte string: each byte added after multiplying by 31, wrapping.
pub open spec fn flow_hash(bytes: Seq<u8>) -> u64
    decreases bytes.len(),
{
    if bytes.len() == 0 {
        0
    } else {
        vstd::wrapping::u64_specs::wrapping_add(
            vstd::wrapping::u64_specs::wrapping_mul(flow_hash(bytes.drop_last()), 31),
            bytes.last() as u64,
        )
    }
}

/// The member an up port channel sends a frame on: the member the flow hash of the source
/// and destination addresses selects.
pub open spec fn channel_egress_spec(v: DeviceView, logical: InterfaceId, f: FrameView) -> Option<InterfaceId> {
    let members = members_spec(v, logical);
    if !up_spec(v, logical) || members.len() == 0 {
        None
    } else {
        Some(members[(flow_hash(f.source.0@ + f.destination.0@) % (members.len() as u64)) as int])
    }
}

/// The interface a frame received on `member` belongs to: the member itself outside a
/// bundle, the port channel when it is up and the member active, else a drop.
pub open spec fn channel_ingress_spec(v: DeviceView, member: InterfaceId) -> Result<InterfaceId, DropReason> {
    match channel_spec(v, member) {
        None => Ok(member),
        Some(l) => if up_spec(v, l) && members_spec(v, l).contains(member) {
            Ok(l)
        } else {
            Err(DropReason::ChannelInactive)
        },
    }
}

/// The VLAN number of an optional tag.
pub open spec fn tag_of(vlan: Option<VlanId>) -> Option<u16> {
    match vlan {
        Some(x) => Some(x@),
        None => None,
    }
}

/// A copy of a frame.
fn copy_frame(f: &EthernetFrame) -> (r: EthernetFrame)
    ensures
        fview(&r) == fview(f),
{
    let payload = crate::text::copy_range(f.payload.as_slice(), 0, f.payload.len());
    assert(f.payload@.subrange(0, f.payload@.len() as int) =~= f.payload@);
    EthernetFrame { destination: f.destination, source: f.source, ethertype: f.ethertype, payload }
}

fn tag_frame(f: EthernetFrame, vlan: VlanId) -> (r: EthernetFrame)
    ensures
        fview(&r) == tag_view(fview(&f), vlan@),
{
    f.tagged(vlan)
}

fn split_tag(f: &EthernetFrame) -> (r: Option<(VlanId, EthernetFrame)>)
    ensures
        match untag_view(fview(f)) {
            Some((vlan, inner)) => r matches Some((x, g)) && x@ == vlan && fview(&g) == inner,
            None => r is None,
        },
{
    match f.untagged() {
        Ok((vlan, inner)) => Some((vlan, inner)),
        Err(_) => None,
    }
}

fn admits_exec(sp: &SwitchportConfig, vlan: VlanId) -> (r: bool)
    ensures
        r == admits(sp@, vlan@),
{
    sp.mode == SwitchportMode::Access || match &sp.trunk_allowed_vlans {
        None => true,
        Some(list) => vlan_listed(list, vlan),
    }
}

impl Device {
    /// The VLAN and frame switchport `id` accepts from the wire, removing a trunk tag.
    pub fn classify_switch_ingress(&self, id: InterfaceId, frame: &EthernetFrame) -> (r: Option<(VlanId, EthernetFrame)>)
        requires
            device_wf(self@),
        ensures
            match classify_spec(self@, id, fview(frame)) {
                Some((vlan, inner)) => r matches Some((x, g)) && x@ == vlan && fview(&g) == inner,
                None => r is None,
            },
    {
        if !(1 <= id.0 && id.0 <= self.interfaces.len() as u64) {
            return None;
        }
        let i = (id.0 - 1) as usize;
        assert(self@.interfaces[i as int].1 == self.interfaces@[i as int].1@);
        let sp = match &self.interfaces[i].1.switchport {
            None => {
                return None;
            },
            Some(sp) => sp,
        };
        let tagged = frame.ethertype == EtherType::Dot1Q;
        let (vlan, inner) = match sp.mode {
            SwitchportMode::Access => {
                if tagged {
                    return None;
                }
                (sp.access_vlan, copy_frame(frame))
            },
            SwitchportMode::Trunk => {
                if tagged {
                    match split_tag(frame) {
                        None => {
                            return None;
                        },
                        Some(x) => x,
                    }
                } else {
                    (sp.native_vlan, copy_frame(frame))
                }
            },
        };
        if admits_exec(sp, vlan) && vlan_named(&self.vlans, vlan).is_some() {
            Some((vlan, inner))
        } else {
            None
        }
    }

    /// The frame switchport `id` sends for `vlan`: unchanged on an access port in that VLAN;
    /// on a trunk allowing it, tagged unless it is the native VLAN.
    pub fn prepare_switch_egress(&self, id: InterfaceId, vlan: VlanId, frame: EthernetFrame) -> (r: Option<EthernetFrame>)
        requires
            device_wf(self@),
        ensures
            match egress_spec(self@, id, vlan@, fview(&frame)) {
                Some(out) => r matches Some(g) && fview(&g) == out,
                None => r is None,
            },
    {
        if !(1 <= id.0 && id.0 <= self.interfaces.len() as u64) {
            return None;
        }
        let i = (id.0 - 1) as usize;
        assert(self@.interfaces[i as int].1 == self.interfaces@[i as int].1@);
        let sp = match &self.interfaces[i].1.switchport {
            None => {
                return None;
            },
            Some(sp) => sp,
        };
        match sp.mode {
            SwitchportMode::Access => if sp.access_vlan.get() == vlan.get() {
                Some(frame)
            } else {
                None
            },
            SwitchportMode::Trunk => if admits_exec(sp, vlan) {
                if sp.native_vlan.get() == vlan.get() {
                    Some(frame)
                } else {
                    Some(tag_frame(frame, vlan))
                }
            } else {
                None
            },
        }
    }

    /// The parent and wire frame for a frame sent on up subinterface `id`.
    pub fn subinterface_egress(&self, id: InterfaceId, frame: EthernetFrame) -> (r: Option<(InterfaceId, EthernetFrame)>)
        requires
            device_wf(self@),
        ensures
            match sub_egress_spec(self@, id, fview(&frame)) {
                Some((p, out)) => r matches Some((q, g)) && q == p && fview(&g) == out,
                None => r is None,
            },
    {
        if !(1 <= id.0 && id.0 <= self.interfaces.len() as u64) {
            return None;
        }
        let i = (id.0 - 1) as usize;
        assert(self@.interfaces[i as int].1 == self.interfaces@[i as int].1@);
        let tag = match self.interfaces[i].1.dot1q {
            None => {
                return None;
            },
            Some(t) => t,
        };
        let parent = match self.interfaces[i].1.parent {
            None => {
                return None;
            },
            Some(p) => p,
        };
        if !self.protocol_up(id) {
            return None;
        }
        if tag.native {
            Some((parent, frame))
        } else {
            Some((parent, tag_frame(frame, tag.vlan)))
        }
    }

    fn first_sub_exec(&self, parent: InterfaceId, vlan: Option<VlanId>) -> (r: Option<usize>)
        ensures
            match r {
                Some(j) => first_sub(self@, parent, tag_of(vlan), j as int),
                None => !exists|j: int| #[trigger] first_sub(self@, parent, tag_of(vlan), j),
            },
    {
        let ghost v = self@;
        let ghost tag = match vlan {
            Some(x) => Some(x@),
            None => None,
        };
        let mut j: usize = 0;
        while j < self.interfaces.len()
            invariant
                v == self@,
                j <= v.interfaces.len(),
                v.interfaces.len() == self.interfaces@.len(),
                tag == match vlan {
                    Some(x) => Some(x@),
                    None => None::<u16>,
                },
                forall|k: int| 0 <= k < j ==> !#[trigger] sub_matches(v, parent, tag, k),
            decreases v.interfaces.len() - j,
        {
            assert(v.interfaces[j as int].1 == self.interfaces@[j as int].1@);
            let c = &self.interfaces[j].1;
            let same_parent = match c.parent {
                Some(p) => p.0 == parent.0,
                None => false,
            };
            let hit = same_parent && match c.dot1q {
                None => false,
                Some(t) => match vlan {
                    None => t.native,
                    Some(x) => t.vlan.get() == x.get(),
                },
            };
            if hit {
                assert(sub_matches(v, parent, tag, j as int));
                return Some(j);
            }
            j = j + 1;
        }
        proof {
            assert forall|k: int| !first_sub(v, parent, tag, k) by {
                if first_sub(v, parent, tag, k) {
                    assert(sub_matches(v, parent, tag, k));
                }
            }
        }
        None
    }

    /// The logical interface and frame routed port `parent` delivers for a received frame.
    pub fn routed_ingress(&self, parent: InterfaceId, frame: &EthernetFrame) -> (r: Option<(InterfaceId, EthernetFrame)>)
        requires
            device_wf(self@),
        ensures
            match routed_ingress_spec(self@, parent, fview(frame)) {
                Some((id, out)) => r matches Some((q, g)) && q == id && fview(&g) == out,
                None => r is None,
            },
    {
        let tagged = frame.ethertype == EtherType::Dot1Q;
        let (vlan, inner) = if tagged {
            match split_tag(frame) {
                None => {
                    return None;
                },
                Some((x, g)) => (Some(x), g),
            }
        } else {
            (None, copy_frame(frame))
        };
        let ghost tag = tag_of(vlan);
        assert(ingress_split(fview(frame)) == Some((tag, fview(&inner))));
        match self.first_sub_exec(parent, vlan) {
            Some(j) => {
                proof {
                    let c = choose|c: int| first_sub(self@, parent, tag, c);
                    if c < j {
                        assert(!sub_matches(self@, parent, tag, c));
                    } else if c > j {
                        assert(!sub_matches(self@, parent, tag, j as int));
                    }
                }
                let id = InterfaceId((j + 1) as u64);
                if self.protocol_up(id) {
                    Some((id, inner))
                } else {
                    None
                }
            },
            None => if !tagged {
                Some((parent, inner))
            } else {
                None
            },
        }
    }

    /// The member up port channel `logical` sends a frame on, chosen by the flow hash of the
    /// frame's addresses so that a flow keeps its member while the bundle is stable.
    pub fn channel_egress(&self, logical: InterfaceId, frame: &EthernetFrame) -> (r: Option<InterfaceId>)
        requires
            device_wf(self@),
        ensures
            r == channel_egress_spec(self@, logical, fview(frame)),
    {
        if !self.protocol_up(logical) {
            return None;
        }
        let members = self.channel_members(logical);
        if members.len() == 0 {
            return None;
        }
        let mut hash: u64 = 0;
        let ghost bytes = frame.source.0@ + frame.destination.0@;
        let mut k: usize = 0;
        while k < 12
            invariant
                k <= 12,
                bytes == frame.source.0@ + frame.destination.0@,
                bytes.len() == 12,
                hash == flow_hash(bytes.take(k as int)),
            decreases 12 - k,
        {
            let b = if k < 6 {
                frame.source.0[k]
            } else {
                frame.destination.0[k - 6]
            };
            assert(b == bytes[k as int]);
            assert(bytes.take(k + 1).drop_last() =~= bytes.take(k as int));
            hash = hash.wrapping_mul(31).wrapping_add(b as u64);
            k = k + 1;
        }
        assert(bytes.take(12) =~= bytes);
        let index = (hash % (members.len() as u64)) as usize;
        Some(members[index])
    }

    /// The interface a frame received on `member` belongs to.
    pub fn channel_ingress(&self, member: InterfaceId) -> (r: Result<InterfaceId, DropReason>)
        requires
            device_wf(self@),
        ensures
            r == channel_ingress_spec(self@, member),
    {
        let logical = match self.channel_interface(member) {
            None => {
                return Ok(member);
            },
            Some(l) => l,
        };
        if !self.protocol_up(logical) {
            return Err(DropReason::ChannelInactive);
        }
        let members = self.channel_members(logical);
        let mut k: usize = 0;
        while k < members.len()
            invariant
                k <= members@.len(),
                members@ == members_spec(self@, logical),
                channel_spec(self@, member) == Some(logical),
                up_spec(self@, logical),
                forall|j: int| 0 <= j < k ==> members@[j] != member,
            decreases members@.len() - k,
        {
            if members[k].0 == member.0 {
                assert(members@.contains(member)) by {
                    assert(members@[k as int] == member);
                }
                return Ok(logical);
            }
            k = k + 1;
        }
        Err(DropReason::ChannelInactive)
    }
}

/// Whether every character of a name is ASCII.
pub open spec fn ascii_name(s: Seq<char>) -> bool {
    forall|i: int| 0 <= i < s.len() ==> (#[trigger] s[i] as u32) < 128
}

/// The stem and number of an ASCII name.
pub open spec fn name_sequence(s: Seq<char>) -> Option<(Seq<char>, nat)> {
    if ascii_name(s) {
        crate::interface_name::sequence_spec(s)
    } else {
        None
    }
}

/// Whether slot `j` belongs to the range of names with `stem` numbered `low` to `high`.
pub open spec fn in_range(v: DeviceView, stem: Seq<char>, low: nat, high: nat, j: int) -> bool {
    name_sequence(v.interfaces[j].1.name) matches Some((s, n)) && s == stem && low <= n <= high
}

/// The interfaces among the first `k` that belong to the range, in identifier order.
pub open spec fn range_upto(v: DeviceView, stem: Seq<char>, low: nat, high: nat, k: int) -> Seq<InterfaceId>
    decreases k,
{
    if k <= 0 {
        Seq::empty()
    } else {
        let rest = range_upto(v, stem, low, high, k - 1);
        if in_range(v, stem, low, high, k - 1) {
            rest.push(InterfaceId(k as u64))
        } else {
            rest
        }
    }
}

/// The interfaces from `first` to `last`: both must exist and share a stem, with the first
/// number not above the last; the result lists every interface with that stem whose number
/// lies between them.
pub open spec fn range_spec(v: DeviceView, first: InterfaceId, last: InterfaceId) -> Result<Seq<InterfaceId>, Failure> {
    match (slot(v, first), slot(v, last)) {
        (Some(fi), Some(li)) => {
            let fname = v.interfaces[fi].1.name;
            let lname = v.interfaces[li].1.name;
            match name_sequence(fname) {
                None => Err(Failure::Invalid(fname)),
                Some((fs, fnum)) => match name_sequence(lname) {
                    None => Err(Failure::Invalid(lname)),
                    Some((ls, lnum)) => if fs != ls || fnum > lnum {
                        Err(Failure::Invalid(fname + "-"@ + lname))
                    } else {
                        Ok(range_upto(v, fs, fnum, lnum, v.interfaces.len() as int))
                    },
                },
            }
        },
        _ => Err(Failure::Other(DeviceError::MissingInterface)),
    }
}

fn name_sequence_exec(name: &String) -> (r: Option<(Vec<char>, u16)>)
    ensures
        match name_sequence(name@) {
            Some((s, n)) => r matches Some((t, m)) && t@ == s && m as nat == n,
            None => r is None,
        },
{
    let chars = crate::text::str_chars(name.as_str());
    let mut i: usize = 0;
    while i < chars.len()
        invariant
            i <= chars@.len(),
            chars@ == name@,
            forall|j: int| 0 <= j < i ==> (#[trigger] chars@[j] as u32) < 128,
        decreases chars@.len() - i,
    {
        if chars[i] as u32 >= 128 {
            return None;
        }
        i = i + 1;
    }
    match crate::interface_name::interface_sequence(name.as_str()) {
        None => None,
        Some((stem, n)) => Some((crate::text::str_chars(stem), n)),
    }
}

fn chars_equal(a: &Vec<char>, b: &Vec<char>) -> (r: bool)
    ensures
        r == (a@ == b@),
{
    if a.len() != b.len() {
        return false;
    }
    let mut i: usize = 0;
    while i < a.len()
        invariant
            a@.len() == b@.len(),
            i <= a@.len(),
            forall|j: int| 0 <= j < i ==> a@[j] == b@[j],
        decreases a@.len() - i,
    {
        if a[i] != b[i] {
            return false;
        }
        i = i + 1;
    }
    assert(a@ =~= b@);
    true
}

impl Device {
    /// The default two-port router `R1`, device 1, with `GigabitEthernet0/0` and
    /// `GigabitEthernet0/1`.
    pub fn standalone() -> (r: Device)
        ensures
            device_wf(r@),
            r@.id == DeviceId(1),
            r@.device_type == DeviceType::Router,
            r@.hostname == "R1"@,
            r@.interfaces.len() == 2,
            r@.interfaces[0].1.name == "GigabitEthernet0/0"@,
            r@.interfaces[1].1.name == "GigabitEthernet0/1"@,
            r@.interfaces[0].0.kind == InterfaceKind::GigabitEthernet,
            r@.interfaces[1].0.kind == InterfaceKind::GigabitEthernet,
            r@ == insert_spec(
                insert_spec(
                    initial_device(DeviceId(1), "R1"@, DeviceType::Router),
                    "GigabitEthernet0/0"@,
                    InterfaceKind::GigabitEthernet,
                    InterfaceMedia::Rj45,
                ).0,
                "GigabitEthernet0/1"@,
                InterfaceKind::GigabitEthernet,
                InterfaceMedia::Rj45,
            ).0,
    {
        let mut d = Device {
            id: DeviceId(1),
            device_type: DeviceType::Router,
            hostname: crate::text::string_from_chars(&crate::text::str_chars("R1")),
            ip_routing: false,
            interfaces: Vec::new(),
            counters: Vec::new(),
            vlans: Vec::new(),
            startup: None,
        };
        assert(interfaces_view(d.interfaces@) =~= Seq::<(Interface, InterfaceConfigView)>::empty());
        assert(d@.counters =~= Seq::<CountersView>::empty());
        assert(d@.interfaces.len() == 0);
        assert(d@ =~= initial_device(DeviceId(1), "R1"@, DeviceType::Router));
        let first = crate::text::string_from_chars(&crate::text::str_chars("GigabitEthernet0/0"));
        let second = crate::text::string_from_chars(&crate::text::str_chars("GigabitEthernet0/1"));
        proof {
            reveal_strlit("GigabitEthernet0/0");
            reveal_strlit("GigabitEthernet0/1");
            assert(!exists|i: int| first_named(d@, first@, i));
        }
        let _ = d.insert_interface(first, InterfaceKind::GigabitEthernet, InterfaceMedia::Rj45);
        proof {
            assert(d@.interfaces.len() == 1);
            assert(!same_name(d@.interfaces[0].1.name, second@)) by {
                assert(lower(d@.interfaces[0].1.name[17]) != lower(second@[17]));
            }
            assert(!exists|i: int| first_named(d@, second@, i));
        }
        let _ = d.insert_interface(second, InterfaceKind::GigabitEthernet, InterfaceMedia::Rj45);
        d
    }

    /// The interfaces from `first` to `last` with the same stem, such as
    /// `GigabitEthernet0/1` to `GigabitEthernet0/4`, in identifier order.
    pub fn interface_range(&self, first: InterfaceId, last: InterfaceId) -> (r: Result<Vec<InterfaceId>, DeviceError>)
        requires
            device_wf(self@),
        ensures
            match r {
                Ok(ids) => range_spec(self@, first, last) == Ok::<Seq<InterfaceId>, Failure>(ids@),
                Err(e) => range_spec(self@, first, last) matches Err(f) && reports(e, f),
            },
    {
        let n = self.interfaces.len() as u64;
        if !(1 <= first.0 && first.0 <= n) || !(1 <= last.0 && last.0 <= n) {
            return Err(DeviceError::MissingInterface);
        }
        let ghost v = self@;
        let fi = (first.0 - 1) as usize;
        let li = (last.0 - 1) as usize;
        assert(v.interfaces[fi as int].1 == self.interfaces@[fi as int].1@);
        assert(v.interfaces[li as int].1 == self.interfaces@[li as int].1@);
        let fname = &self.interfaces[fi].1.name;
        let lname = &self.interfaces[li].1.name;
        let (fstem, fnum) = match name_sequence_exec(fname) {
            None => {
                return Err(DeviceError::InvalidInterface(fname.clone()));
            },
            Some(x) => x,
        };
        let (lstem, lnum) = match name_sequence_exec(lname) {
            None => {
                return Err(DeviceError::InvalidInterface(lname.clone()));
            },
            Some(x) => x,
        };
        if !chars_equal(&fstem, &lstem) || fnum > lnum {
            let mut text = crate::text::str_chars(fname.as_str());
            text.push('-');
            let tail = crate::text::str_chars(lname.as_str());
            proof {
                reveal_strlit("-");
                assert(text@ =~= fname@ + "-"@ + tail@.take(0));
            }
            let mut k: usize = 0;
            while k < tail.len()
                invariant
                    k <= tail@.len(),
                    text@ == fname@ + "-"@ + tail@.take(k as int),
                decreases tail@.len() - k,
            {
                proof {
                    reveal_strlit("-");
                }
                text.push(tail[k]);
                k = k + 1;
                proof {
                    reveal_strlit("-");
                    assert(text@ =~= fname@ + "-"@ + tail@.take(k as int));
                }
            }
            proof {
                reveal_strlit("-");
                assert(tail@.take(tail@.len() as int) =~= tail@);
            }
            return Err(DeviceError::InvalidInterface(crate::text::string_from_chars(&text)));
        }
        let mut out: Vec<InterfaceId> = Vec::new();
        let mut j: usize = 0;
        while j < self.interfaces.len()
            invariant
                v == self@,
                j <= v.interfaces.len(),
                v.interfaces.len() == self.interfaces@.len(),
                out@ == range_upto(v, fstem@, fnum as nat, lnum as nat, j as int),
            decreases v.interfaces.len() - j,
        {
            assert(v.interfaces[j as int].1 == self.interfaces@[j as int].1@);
            let hit = match name_sequence_exec(&self.interfaces[j].1.name) {
                None => false,
                Some((stem, num)) => chars_equal(&stem, &fstem) && fnum <= num && num <= lnum,
            };
            if hit {
                out.push(InterfaceId((j + 1) as u64));
            }
            j = j + 1;
        }
        Ok(out)
    }
}

/// The payload length a frame counts against the MTU: without the tag of a tagged frame.
pub open spec fn mtu_length(f: FrameView) -> int {
    if f.ethertype == EtherType::Dot1Q {
        if f.payload.len() >= 4 {
            f.payload.len() - 4
        } else {
            0
        }
    } else {
        f.payload.len() as int
    }
}

/// Why interface `id` refuses frame `f`, received or about to be sent, if it does: no
/// Ethernet port, no line protocol, a payload over the MTU, a length field in place of a
/// type, or, on a routed port, a received unicast frame for another address.
pub open spec fn check_spec(v: DeviceView, id: InterfaceId, f: FrameView, receive: bool) -> Result<(), DropReason> {
    match slot(v, id) {
        None => Err(DropReason::NotEthernet),
        Some(i) => {
            let (iface, c) = v.interfaces[i];
            if !ethernet(iface.kind) {
                Err(DropReason::NotEthernet)
            } else if !up_spec(v, id) {
                Err(DropReason::InterfaceDown)
            } else if mtu_length(f) > c.mtu {
                Err(DropReason::MtuExceeded)
            } else if crate::frame::ethertype_value(f.ethertype) < 0x0600 {
                Err(DropReason::InvalidEtherType)
            } else if receive && c.switchport is None && f.destination != iface.mac_address && f.destination.0@[0] % 2
                != 1 {
                Err(DropReason::NotForInterface)
            } else {
                Ok(())
            }
        },
    }
}

/// The device after changing the counters of interface slot `i` to `c`.
pub open spec fn with_counters(v: DeviceView, i: int, c: CountersView) -> DeviceView {
    DeviceView { counters: v.counters.update(i, c), ..v }
}

/// A copy of interface counters.
fn copy_counters(c: &InterfaceCounters) -> (r: InterfaceCounters)
    ensures
        r@ == c@,
{
    InterfaceCounters {
        drop_reasons: c.drop_reasons.clone(),
        rx_packets: c.rx_packets,
        tx_packets: c.tx_packets,
        rx_bytes: c.rx_bytes,
        tx_bytes: c.tx_bytes,
        drops: c.drops,
    }
}

impl Device {
    /// The traffic counters of interface `id`.
    pub fn interface_counters(&self, id: InterfaceId) -> (r: Option<&InterfaceCounters>)
        requires
            device_wf(self@),
        ensures
            match slot(self@, id) {
                Some(i) => r matches Some(c) && c@ == self@.counters[i],
                None => r is None,
            },
    {
        if 1 <= id.0 && id.0 <= self.counters.len() as u64 {
            Some(&self.counters[(id.0 - 1) as usize])
        } else {
            None
        }
    }

    /// Account for a frame of `length` bytes that interface `id` accepted.
    pub fn record_frame(&mut self, id: InterfaceId, length: usize, receive: bool) -> (r: Result<(), DeviceError>)
        requires
            device_wf(old(self)@),
        ensures
            device_wf(final(self)@),
            match slot(old(self)@, id) {
                Some(i) => r is Ok && final(self)@ == with_counters(
                    old(self)@,
                    i,
                    counted_frame(old(self)@.counters[i], length as u64, receive),
                ),
                None => r == Err::<(), DeviceError>(DeviceError::MissingInterface) && final(self)@ == old(self)@,
            },
    {
        if !(1 <= id.0 && id.0 <= self.counters.len() as u64) {
            return Err(DeviceError::MissingInterface);
        }
        let i = (id.0 - 1) as usize;
        let ghost before = self@;
        let mut c = copy_counters(&self.counters[i]);
        assert(c@ == before.counters[i as int]);
        c.count_frame(length as u64, receive);
        self.counters.set(i, c);
        proof {
            assert(self@ =~= with_counters(before, i as int, counted_frame(before.counters[i as int], length as u64, receive)));
        }
        Ok(())
    }

    /// Account for a frame that interface `id` discarded.
    pub fn record_drop(&mut self, id: InterfaceId) -> (r: Result<(), DeviceError>)
        requires
            device_wf(old(self)@),
        ensures
            device_wf(final(self)@),
            match slot(old(self)@, id) {
                Some(i) => r is Ok && final(self)@ == with_counters(old(self)@, i, counted_drop(old(self)@.counters[i])),
                None => r == Err::<(), DeviceError>(DeviceError::MissingInterface) && final(self)@ == old(self)@,
            },
    {
        if !(1 <= id.0 && id.0 <= self.counters.len() as u64) {
            return Err(DeviceError::MissingInterface);
        }
        let i = (id.0 - 1) as usize;
        let ghost before = self@;
        let mut c = copy_counters(&self.counters[i]);
        assert(c@ == before.counters[i as int]);
        c.count_drop();
        self.counters.set(i, c);
        proof {
            assert(self@ =~= with_counters(before, i as int, counted_drop(before.counters[i as int])));
        }
        Ok(())
    }

    /// Check frame `frame` at the boundary of interface `id`, received or about to be sent,
    /// without counting it.
    pub fn check_frame(&self, id: InterfaceId, frame: &EthernetFrame, receive: bool) -> (r: Result<(), DropReason>)
        requires
            device_wf(self@),
        ensures
            r == check_spec(self@, id, fview(frame), receive),
    {
        if !(1 <= id.0 && id.0 <= self.interfaces.len() as u64) {
            return Err(DropReason::NotEthernet);
        }
        let i = (id.0 - 1) as usize;
        let ghost v = self@;
        assert(v.interfaces[i as int].1 == self.interfaces@[i as int].1@);
        let iface = self.interfaces[i].0;
        if !iface.kind.is_ethernet() {
            return Err(DropReason::NotEthernet);
        }
        if !self.protocol_up(id) {
            return Err(DropReason::InterfaceDown);
        }
        let n = frame.payload.len();
        let length = if frame.ethertype == EtherType::Dot1Q {
            n.saturating_sub(4)
        } else {
            n
        };
        if length > self.interfaces[i].1.mtu as usize {
            return Err(DropReason::MtuExceeded);
        }
        if frame.ethertype.to_u16() < 0x0600 {
            return Err(DropReason::InvalidEtherType);
        }
        if receive && self.interfaces[i].1.switchport.is_none() && !crate::dhcp::same_mac(frame.destination, iface.mac_address)
            && !frame.destination.is_multicast() {
            return Err(DropReason::NotForInterface);
        }
        Ok(())
    }

    /// Learn or move the unicast source `address` of `vlan` to switch port `interface` at
    /// `now`; refused on a device that does not switch and for a missing interface.
    pub fn learn_mac(&self, table: &mut MacTable, vlan: VlanId, address: MacAddress, interface: InterfaceId, now: u64) -> (r: Result<(), DeviceError>)
        requires
            device_wf(self@),
            mac_table_wf(old(table)@),
        ensures
            mac_table_wf(final(table)@),
            if switching(self@.device_type) && slot(self@, interface) is Some {
                r is Ok && final(table)@ == mac_learn_spec(old(table)@, vlan, address, interface, now)
            } else {
                r == Err::<(), DeviceError>(DeviceError::MissingInterface) && final(table)@ == old(table)@
            },
    {
        if !self.supports_switching() || !(1 <= interface.0 && interface.0 <= self.interfaces.len() as u64) {
            return Err(DeviceError::MissingInterface);
        }
        table.learn(vlan, address, interface, now);
        Ok(())
    }
}

/// The characters without leading and trailing whitespace.
fn trim_chars(t: &Vec<char>) -> (r: Vec<char>)
    ensures
        r@ == trim(t@),
{
    let mut start: usize = 0;
    let mut end: usize = t.len();
    assert(t@.subrange(0, t@.len() as int) =~= t@);
    while start < end && crate::interface_name::is_whitespace(t[start])
        invariant
            start <= end <= t@.len(),
            end == t@.len(),
            trim(t@.subrange(start as int, end as int)) == trim(t@),
        decreases end - start,
    {
        proof {
            let s = t@.subrange(start as int, end as int);
            assert(s.drop_first() =~= t@.subrange(start + 1, end as int));
        }
        start = start + 1;
    }
    while start < end && crate::interface_name::is_whitespace(t[end - 1])
        invariant
            start <= end <= t@.len(),
            trim(t@.subrange(start as int, end as int)) == trim(t@),
            start < end ==> !is_blank(t@[start as int]),
        decreases end - start,
    {
        proof {
            let s = t@.subrange(start as int, end as int);
            assert(s.drop_last() =~= t@.subrange(start as int, end - 1));
            if s.len() > 0 {
                assert(s[0] == t@[start as int]);
            }
        }
        end = end - 1;
    }
    let r = crate::interface_name::copy_chars(t, start, end);
    proof {
        let s = t@.subrange(start as int, end as int);
        if s.len() > 0 {
            assert(s[0] == t@[start as int]);
            assert(s.last() == t@[end - 1]);
        }
    }
    r
}


/// Distinct devices give one port number distinct hardware addresses, and one device gives
/// distinct port numbers distinct addresses.
pub proof fn lemma_mac_addresses_distinct(d1: u64, p1: u64, d2: u64, p2: u64)
    requires
        d1 <= MAX_DEVICE_ID,
        d2 <= MAX_DEVICE_ID,
        p1 <= MAX_INTERFACE_ID,
        p2 <= MAX_INTERFACE_ID,
        d1 != d2 || p1 != p2,
    ensures
        mac_for(d1, p1) != mac_for(d2, p2),
{
    if mac_for(d1, p1) == mac_for(d2, p2) {
        let a = mac_for(d1, p1).0;
        let b = mac_for(d2, p2).0;
        assert(a@ == b@);
        assert(a@[1] == b@[1] && a@[2] == b@[2] && a@[3] == b@[3] && a@[4] == b@[4] && a@[5] == b@[5]);
        assert((d1 / 65536) % 256 == (d2 / 65536) % 256);
        assert((d1 / 256) % 256 == (d2 / 256) % 256);
        assert(d1 % 256 == d2 % 256);
        assert((p1 / 256) % 256 == (p2 / 256) % 256);
        assert(p1 % 256 == p2 % 256);
        assert(d1 == d2) by (bit_vector)
            requires
                d1 <= 0xff_ffffu64,
                d2 <= 0xff_ffffu64,
                (d1 / 65536u64) % 256u64 == (d2 / 65536u64) % 256u64,
                (d1 / 256u64) % 256u64 == (d2 / 256u64) % 256u64,
                d1 % 256u64 == d2 % 256u64,
        ;
        assert(p1 == p2) by (bit_vector)
            requires
                p1 <= 0xffffu64,
                p2 <= 0xffffu64,
                (p1 / 256u64) % 256u64 == (p2 / 256u64) % 256u64,
                p1 % 256u64 == p2 % 256u64,
        ;
    }
}

/// An administratively shut interface never has line protocol, and neither has an Ethernet
/// port or VLAN interface without carrier.
pub proof fn lemma_down_means_no_protocol(v: DeviceView, id: InterfaceId)
    requires
        slot(v, id) matches Some(i) && (v.interfaces[i].1.admin_state == AdminState::Down || ((ethernet(
            v.interfaces[i].0.kind,
        ) || v.interfaces[i].0.kind == InterfaceKind::Vlan) && v.interfaces[i].0.link_state == LinkState::Down)),
    ensures
        !up_spec(v, id),
{
}

/// A refused request leaves the device as it was: adding hardware, entering an interface,
/// describing, addressing, bundling, encapsulating, and the switchport edits.
pub proof fn lemma_refused_request_changes_nothing(
    v: DeviceView,
    id: InterfaceId,
    input: Seq<char>,
    media: InterfaceMedia,
    ip: (u32, u8),
    n: u16,
    cmode: ChannelMode,
    vlan: u16,
    native: bool,
    mode: SwitchportMode,
    f: spec_fn(SwitchportView) -> SwitchportView,
)
    ensures
        add_physical_spec(v, input).1 is Err ==> add_physical_spec(v, input).0 == v,
        add_port_spec(v, input, media).1 is Err ==> add_port_spec(v, input, media).0 == v,
        ensure_spec(v, input).1 is Err ==> ensure_spec(v, input).0 == v,
        describe_spec(v, id, input).1 is Err ==> describe_spec(v, id, input).0 == v,
        set_ipv4_spec(v, id, ip).1 is Err ==> set_ipv4_spec(v, id, ip).0 == v,
        set_group_spec(v, id, n, cmode).1 is Err ==> set_group_spec(v, id, n, cmode).0 == v,
        set_dot1q_spec(v, id, vlan, native).1 is Err ==> set_dot1q_spec(v, id, vlan, native).0 == v,
        enable_spec(v, id).1 is Err ==> enable_spec(v, id).0 == v,
        disable_spec(v, id).1 is Err ==> disable_spec(v, id).0 == v,
        set_mode_spec(v, id, mode).1 is Err ==> set_mode_spec(v, id, mode).0 == v,
        switchport_edit_spec(v, id, f).1 is Err ==> switchport_edit_spec(v, id, f).0 == v,
{
    lemma_refused_creation_changes_nothing(v, input);
    lemma_refused_creation_changes_nothing(v, channel_name(n));
    match canonical_spec(input) {
        Some((name, _)) => {
            lemma_refused_creation_changes_nothing(v, name);
        },
        None => {},
    }
}

/// Creating a port channel or subinterface that is refused leaves the device as it was.
proof fn lemma_refused_creation_changes_nothing(v: DeviceView, name: Seq<char>)
    ensures
        forall|kind: InterfaceKind, media: InterfaceMedia|
            (#[trigger] insert_spec(v, name, kind, media)).1 is Err ==> insert_spec(v, name, kind, media).0 == v,
        create_channel_spec(v, name).1 is Err ==> create_channel_spec(v, name).0 == v,
        create_sub_spec(v, name).1 is Err ==> create_sub_spec(v, name).0 == v,
{
}

/// A name that some interface has is the name of a first such interface.
proof fn lemma_named_has_first(v: DeviceView, name: Seq<char>, j: int)
    requires
        0 <= j < v.interfaces.len(),
        same_name(v.interfaces[j].1.name, name),
    ensures
        exists|k: int| first_named(v, name, k),
    decreases j,
{
    if exists|k: int| 0 <= k < j && same_name(v.interfaces[k].1.name, name) {
        let k = choose|k: int| 0 <= k < j && same_name(v.interfaces[k].1.name, name);
        lemma_named_has_first(v, name, k);
    } else {
        assert(first_named(v, name, j));
    }
}

/// After a new last interface named `name` joins a device where no interface had that name,
/// looking the name up finds the new interface.
proof fn lemma_new_name_found(v: DeviceView, w: DeviceView, name: Seq<char>)
    requires
        find_spec(v, name) is None,
        w.interfaces.len() == v.interfaces.len() + 1,
        forall|j: int| 0 <= j < v.interfaces.len() ==> (#[trigger] w.interfaces[j]).1.name == v.interfaces[j].1.name,
        w.interfaces[v.interfaces.len() as int].1.name == name,
    ensures
        find_spec(w, name) == Some(InterfaceId((v.interfaces.len() + 1) as u64)),
{
    let len = v.interfaces.len() as int;
    assert forall|j: int| 0 <= j < len implies !same_name((#[trigger] w.interfaces[j]).1.name, name) by {
        if same_name(w.interfaces[j].1.name, name) {
            assert(w.interfaces[j].1.name == v.interfaces[j].1.name);
            lemma_named_has_first(v, name, j);
        }
    }
    assert(same_name(name, name));
    assert(first_named(w, name, len));
    lemma_first_named_unique(w, name, len);
}

/// Entering an interface twice gives the same interface, and the second time changes
/// nothing.
pub proof fn lemma_ensure_interface_idempotent(v: DeviceView, input: Seq<char>)
    requires
        device_wf(v),
    ensures
        ensure_spec(v, input).1 is Ok ==> ensure_spec(ensure_spec(v, input).0, input) == ensure_spec(v, input),
{
    let (w, r) = ensure_spec(v, input);
    if r is Ok {
        let (name, kind) = canonical_spec(input)->0;
        if find_spec(v, name) is None {
            assert(w.interfaces.len() == v.interfaces.len() + 1);
            assert forall|j: int| 0 <= j < v.interfaces.len() implies (#[trigger] w.interfaces[j]).1.name
                == v.interfaces[j].1.name by {}
            lemma_new_name_found(v, w, name);
        }
    }
}

} // verus!
