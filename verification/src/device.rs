//! Device classes, interface families and the validation rules for names and addresses.
use crate::ipv4::Ipv4Addr;
use std::collections::BTreeMap;
use vstd::prelude::*;
use vstd::string::StringSliceAdditionalSpecFns;

verus! {

/// Supported classes of simulated device.
#[derive(Debug, Clone, Copy, PartialEq, Eq, Structural)]
pub enum DeviceType {
    Router,
    Switch,
    Layer3Switch,
    Host,
}

/// Interface medium and its carrier behavior.
#[derive(Debug, Clone, Copy, PartialEq, Eq, Structural)]
pub enum InterfaceKind {
    GigabitEthernet,
    TenGigabitEthernet,
    EthernetSubinterface,
    PortChannel,
    Serial,
    Console,
    Loopback,
    Vlan,
}

/// Physical connector or transceiver presented by an interface.
#[derive(Debug, Clone, Copy, PartialEq, Eq, Structural)]
pub enum InterfaceMedia {
    Rj45,
    Sfp,
    SfpPlus,
    Serial,
    Console,
    Virtual,
}

/// Observable reasons a virtual interface discards a frame.
#[derive(Debug, Clone, Copy, PartialEq, Eq, PartialOrd, Ord, Structural)]
pub enum DropReason {
    InterfaceDown,
    NoLink,
    LinkChanged,
    MtuExceeded,
    NotForInterface,
    NotEthernet,
    InvalidEtherType,
    AccessList,
    ChannelInactive,
}

/// Runtime traffic counters. Configuration changes do not reset them.
#[derive(Debug, Clone, Default, PartialEq, Eq)]
pub struct InterfaceCounters {
    pub drop_reasons: BTreeMap<DropReason, u64>,
    pub rx_packets: u64,
    pub tx_packets: u64,
    pub rx_bytes: u64,
    pub tx_bytes: u64,
    pub drops: u64,
}

/// Traffic counters as numbers: drops by reason, packets and bytes received and sent, and
/// drops.
pub struct CountersView {
    pub drop_reasons: Map<DropReason, u64>,
    pub rx_packets: u64,
    pub tx_packets: u64,
    pub rx_bytes: u64,
    pub tx_bytes: u64,
    pub drops: u64,
}

impl View for InterfaceCounters {
    type V = CountersView;

    open spec fn view(&self) -> CountersView {
        CountersView {
            drop_reasons: self.drop_reasons@,
            rx_packets: self.rx_packets,
            tx_packets: self.tx_packets,
            rx_bytes: self.rx_bytes,
            tx_bytes: self.tx_bytes,
            drops: self.drops,
        }
    }
}

/// The counters of a new interface.
pub open spec fn zero_counters() -> CountersView {
    CountersView {
        drop_reasons: Map::empty(),
        rx_packets: 0,
        tx_packets: 0,
        rx_bytes: 0,
        tx_bytes: 0,
        drops: 0,
    }
}

/// The counters after accounting for an accepted frame of `length` bytes, received or sent;
/// each count stops at its largest value.
pub open spec fn counted_frame(c: CountersView, length: u64, receive: bool) -> CountersView {
    if receive {
        CountersView {
            rx_packets: if c.rx_packets == u64::MAX { c.rx_packets } else { (c.rx_packets + 1) as u64 },
            rx_bytes: if c.rx_bytes + length > u64::MAX { u64::MAX } else { (c.rx_bytes + length) as u64 },
            ..c
        }
    } else {
        CountersView {
            tx_packets: if c.tx_packets == u64::MAX { c.tx_packets } else { (c.tx_packets + 1) as u64 },
            tx_bytes: if c.tx_bytes + length > u64::MAX { u64::MAX } else { (c.tx_bytes + length) as u64 },
            ..c
        }
    }
}

/// The counters after accounting for a discarded frame.
pub open spec fn counted_drop(c: CountersView) -> CountersView {
    CountersView { drops: if c.drops == u64::MAX { c.drops } else { (c.drops + 1) as u64 }, ..c }
}

impl InterfaceCounters {
    /// Counters of a new interface: all zero, with no drops by reason.
    pub fn zero() -> (r: InterfaceCounters)
        ensures
            r@ == zero_counters(),
    {
        InterfaceCounters { drop_reasons: BTreeMap::new(), rx_packets: 0, tx_packets: 0, rx_bytes: 0, tx_bytes: 0, drops: 0 }
    }

    /// Account for an accepted frame of `length` bytes.
    pub fn count_frame(&mut self, length: u64, receive: bool)
        ensures
            final(self)@ == counted_frame(old(self)@, length, receive),
            final(self).drop_reasons == old(self).drop_reasons,
    {
        if receive {
            self.rx_packets = self.rx_packets.saturating_add(1);
            self.rx_bytes = self.rx_bytes.saturating_add(length);
        } else {
            self.tx_packets = self.tx_packets.saturating_add(1);
            self.tx_bytes = self.tx_bytes.saturating_add(length);
        }
    }

    /// Account for a discarded frame.
    pub fn count_drop(&mut self)
        ensures
            final(self)@ == counted_drop(old(self)@),
            final(self).drop_reasons == old(self).drop_reasons,
    {
        self.drops = self.drops.saturating_add(1);
    }
}

/// Rejected state changes leave the device unchanged.
#[derive(Debug, Clone, PartialEq, Eq)]
pub enum DeviceError {
    InvalidBgpConfig,
    InvalidRoutingPolicy,
    InvalidQosConfig,
    InvalidSpanningTree,
    InvalidChannel,
    InvalidAccessList,
    AccessListCapacity,
    NotSubinterface,
    DuplicateEncapsulation,
    InvalidHostname,
    InvalidInterface(String),
    MissingInterface,
    InvalidDescription,
    InvalidDeviceId,
    NotSwitchport,
    NotRoutedPort,
    UnsupportedIpv4Interface,
    InvalidVlanName,
    DefaultVlan,
    InvalidOspfProcess,
    InvalidOspfConfig,
    InvalidIpv6Config,
    OspfUnsupported,
    AccessListUnsupported,
    MissingAccessList,
    DhcpUnsupported,
    InvalidDhcpPoolName,
    MissingDhcpPool,
    InvalidDhcpNetwork,
    NatUnsupported,
    InvalidNatConfig,
}

impl DeviceType {
    /// Display label of the device class.
    pub fn label(self) -> (s: &'static str)
        ensures
            s@ == match self {
                DeviceType::Router => "Router"@,
                DeviceType::Switch => "Switch"@,
                DeviceType::Layer3Switch => "L3 Switch"@,
                DeviceType::Host => "Host"@,
            },
    {
        match self {
            DeviceType::Router => "Router",
            DeviceType::Switch => "Switch",
            DeviceType::Layer3Switch => "L3 Switch",
            DeviceType::Host => "Host",
        }
    }
}

impl InterfaceMedia {
    /// Display label of the connector or transceiver.
    pub fn label(self) -> (s: &'static str)
        ensures
            s@ == match self {
                InterfaceMedia::Rj45 => "RJ45"@,
                InterfaceMedia::Sfp => "SFP"@,
                InterfaceMedia::SfpPlus => "SFP+"@,
                InterfaceMedia::Serial => "Serial"@,
                InterfaceMedia::Console => "Console"@,
                InterfaceMedia::Virtual => "Virtual"@,
            },
    {
        match self {
            InterfaceMedia::Rj45 => "RJ45",
            InterfaceMedia::Sfp => "SFP",
            InterfaceMedia::SfpPlus => "SFP+",
            InterfaceMedia::Serial => "Serial",
            InterfaceMedia::Console => "Console",
            InterfaceMedia::Virtual => "Virtual",
        }
    }
}

impl InterfaceKind {
    /// Whether this interface carries Ethernet frames through virtual links.
    pub fn is_ethernet(self) -> (r: bool)
        ensures
            r == (self == InterfaceKind::GigabitEthernet || self
                == InterfaceKind::TenGigabitEthernet),
    {
        matches!(self, InterfaceKind::GigabitEthernet | InterfaceKind::TenGigabitEthernet)
    }

    /// Whether this interface represents installed hardware rather than a logical interface.
    pub fn is_physical(self) -> (r: bool)
        ensures
            r == !(self == InterfaceKind::Loopback || self == InterfaceKind::Vlan || self
                == InterfaceKind::EthernetSubinterface || self == InterfaceKind::PortChannel),
    {
        !matches!(
            self,
            InterfaceKind::Loopback | InterfaceKind::Vlan | InterfaceKind::EthernetSubinterface
                | InterfaceKind::PortChannel
        )
    }
}

/// ASCII letter.
pub open spec fn is_alpha_byte(b: u8) -> bool {
    (65 <= b <= 90) || (97 <= b <= 122)
}

/// ASCII digit.
pub open spec fn is_digit_byte(b: u8) -> bool {
    48 <= b <= 57
}

/// A valid hostname: 1-63 ASCII letters, digits or hyphens, starting with a letter.
pub open spec fn hostname_valid(bytes: Seq<u8>) -> bool {
    &&& 1 <= bytes.len() <= 63
    &&& is_alpha_byte(bytes[0])
    &&& forall|i: int|
        0 <= i < bytes.len() ==> is_alpha_byte(#[trigger] bytes[i]) || is_digit_byte(bytes[i])
            || bytes[i] == 45
}

/// Check a hostname before it becomes the prompt.
pub fn validate_hostname(name: &str) -> (r: Result<(), DeviceError>)
    ensures
        r is Ok <==> hostname_valid(name.spec_bytes()),
        r matches Err(e) ==> e == DeviceError::InvalidHostname,
{
    let bytes = name.as_bytes();
    if bytes.len() == 0 || bytes.len() > 63 {
        return Err(DeviceError::InvalidHostname);
    }
    let first = bytes[0];
    if !((65 <= first && first <= 90) || (97 <= first && first <= 122)) {
        return Err(DeviceError::InvalidHostname);
    }
    let mut i: usize = 0;
    while i < bytes.len()
        invariant
            i <= bytes@.len(),
            bytes@ == name.spec_bytes(),
            forall|j: int|
                0 <= j < i ==> is_alpha_byte(#[trigger] bytes@[j]) || is_digit_byte(bytes@[j])
                    || bytes@[j] == 45,
        decreases bytes@.len() - i,
    {
        let b = bytes[i];
        if !((65 <= b && b <= 90) || (97 <= b && b <= 122) || (48 <= b && b <= 57) || b == 45) {
            return Err(DeviceError::InvalidHostname);
        }
        i = i + 1;
    }
    Ok(())
}

/// A routing-policy name: 1-64 ASCII letters, digits, `_`, `.` or `-`.
pub open spec fn policy_name_ok(bytes: Seq<u8>) -> bool {
    &&& 1 <= bytes.len() <= 64
    &&& forall|i: int|
        0 <= i < bytes.len() ==> is_alpha_byte(#[trigger] bytes[i]) || is_digit_byte(bytes[i])
            || bytes[i] == 95 || bytes[i] == 46 || bytes[i] == 45
}

/// Whether a prefix-list or route-map name is acceptable.
pub fn policy_name_valid(name: &str) -> (r: bool)
    ensures
        r == policy_name_ok(name.spec_bytes()),
{
    let bytes = name.as_bytes();
    if bytes.len() == 0 || bytes.len() > 64 {
        return false;
    }
    let mut i: usize = 0;
    while i < bytes.len()
        invariant
            i <= bytes@.len(),
            bytes@ == name.spec_bytes(),
            forall|j: int|
                0 <= j < i ==> is_alpha_byte(#[trigger] bytes@[j]) || is_digit_byte(bytes@[j])
                    || bytes@[j] == 95 || bytes@[j] == 46 || bytes@[j] == 45,
        decreases bytes@.len() - i,
    {
        let b = bytes[i];
        if !((65 <= b && b <= 90) || (97 <= b && b <= 122) || (48 <= b && b <= 57) || b == 95
            || b == 46 || b == 45) {
            return false;
        }
        i = i + 1;
    }
    true
}

/// Whether an address may be handed out or used as a DHCP server-side address:
/// not in 0.0.0.0/8, not loopback, and below the multicast range.
pub open spec fn address_assignable(address: Ipv4Addr) -> bool {
    let first = address.0 / 0x100_0000;
    first != 0 && first < 224 && first != 127
}

/// Whether an address may be handed out or used as a DHCP server-side address.
pub fn valid_address(address: Ipv4Addr) -> (r: bool)
    ensures
        r == address_assignable(address),
{
    let first = address.octets()[0];
    first != 0 && first < 224 && first != 127
}

} // verus!
