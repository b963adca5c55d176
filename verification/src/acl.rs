//! IPv4 access lists: standard numbered lists matched on the source address, and sequenced
//! named lists that also match protocol, destination and transport ports. A list is read in
//! order, the first matching rule decides, and a packet that no rule matches is denied.
use crate::decimal::{all_digits, decimal_text, digits_value, is_digit};
use crate::device::DeviceError;
use crate::inventory::{routing, Device};
use crate::frame::be16_at;
use crate::ipv4::Ipv4Addr;
use crate::keyed::{
    find_sequence, has_key, key_index, keys_unique, lemma_key_index, lemma_put_unique,
    lemma_remove_sorted, lemma_sorted_put_read, lemma_sorted_unique, lemma_without_read,
    lemma_without_unique, put, put_entry, sorted_keys, sorted_put, value_of, without,
};
use crate::packet::{protocol_value, IpProtocol, Ipv4Packet};
use crate::routing::InterfaceId;
use vstd::prelude::*;
use vstd::string::StringSliceAdditionalSpecFns;
use vstd::utf8::encode_utf8;

verus! {

/// Largest number of rules in one list, and of named lists.
pub const MAX_ACL_ENTRIES: usize = 4096;

/// Whether a matching packet passes or is dropped.
#[derive(Debug, Clone, Copy, PartialEq, Eq, Structural)]
pub enum AccessListAction {
    Permit,
    Deny,
}

/// The direction of traffic an interface binding filters.
#[derive(Debug, Clone, Copy, PartialEq, Eq, Structural)]
pub enum AccessListDirection {
    In,
    Out,
}

/// The number of a standard numbered access list, 1 to 99.
#[derive(Debug, Clone, Copy, PartialEq, Eq, PartialOrd, Ord, Hash, Structural)]
pub struct AccessListId(u8);

impl AccessListId {
    /// The list number, as a spec value.
    pub closed spec fn value(self) -> u8 {
        self.0
    }

    /// The list of number `n`, as a spec value.
    pub closed spec fn numbered(n: u8) -> AccessListId {
        AccessListId(n)
    }

    /// A list number, when it lies in 1 to 99.
    pub fn new(number: u8) -> (r: Option<AccessListId>)
        ensures
            r is Some <==> 1 <= number <= 99,
            r matches Some(id) ==> id.value() == number && id == AccessListId::numbered(number),
    {
        if 1 <= number && number <= 99 {
            Some(AccessListId(number))
        } else {
            None
        }
    }

    /// The list number.
    pub fn get(self) -> (r: u8)
        ensures
            r == self.value(),
    {
        self.0
    }
}

/// One rule of a standard list: an action for sources that match `source` in the bits
/// that `wildcard` leaves clear.
#[derive(Debug, Clone, Copy, PartialEq, Eq, Structural)]
pub struct StandardAccessListEntry {
    pub action: AccessListAction,
    pub source: Ipv4Addr,
    pub wildcard: Ipv4Addr,
}

/// Whether `candidate` equals `address` in every bit that `wildcard` leaves clear.
pub open spec fn wildcard_matches(address: u32, wildcard: u32, candidate: u32) -> bool {
    candidate & !wildcard == address & !wildcard
}

impl StandardAccessListEntry {
    /// Whether a source address matches this rule.
    pub fn matches(&self, source: Ipv4Addr) -> (r: bool)
        ensures
            r == wildcard_matches(self.source.0, self.wildcard.0, source.0),
    {
        source.0 & !self.wildcard.0 == self.source.0 & !self.wildcard.0
    }
}

/// Whether a list is standard (source only) or extended.
#[derive(Debug, Clone, Copy, PartialEq, Eq, Structural)]
pub enum AclKind {
    Standard,
    Extended,
}

/// A named or extended list, numbered from 1 in creation order.
#[derive(Debug, Clone, Copy, PartialEq, Eq, PartialOrd, Ord, Hash, Structural)]
pub struct AclId(pub u32);

/// The protocols a rule can name; `Ip` matches every packet.
#[derive(Debug, Clone, Copy, PartialEq, Eq, Structural)]
pub enum AclProtocol {
    Ip,
    Icmp,
    Tcp,
    Udp,
}

/// An address and the wildcard bits that are ignored when comparing with it.
#[derive(Debug, Clone, Copy, PartialEq, Eq, Structural)]
pub struct AddressMatch {
    pub address: Ipv4Addr,
    pub wildcard: Ipv4Addr,
}

/// A transport-port condition.
#[derive(Debug, Clone, Copy, PartialEq, Eq, Structural)]
pub enum PortMatch {
    Any,
    Eq(u16),
    Range(u16, u16),
}

/// One sequenced entry of a named list: a comment, or a rule.
#[derive(Debug, Clone)]
pub enum AclEntry {
    Remark(String),
    Rule {
        action: AccessListAction,
        protocol: AclProtocol,
        source: AddressMatch,
        source_port: PortMatch,
        destination: AddressMatch,
        destination_port: PortMatch,
        log: bool,
    },
}

/// The condition matching every address.
pub open spec fn any_address() -> AddressMatch {
    AddressMatch { address: Ipv4Addr(0), wildcard: Ipv4Addr(0xffff_ffff) }
}

impl AddressMatch {
    /// The condition matching every address: 0.0.0.0 with every bit ignored.
    pub fn any() -> (r: AddressMatch)
        ensures
            r == any_address(),
    {
        AddressMatch { address: Ipv4Addr(0), wildcard: Ipv4Addr(0xffff_ffff) }
    }

    /// Whether an address satisfies this condition.
    pub fn matches(&self, address: Ipv4Addr) -> (r: bool)
        ensures
            r == wildcard_matches(self.address.0, self.wildcard.0, address.0),
    {
        address.0 & !self.wildcard.0 == self.address.0 & !self.wildcard.0
    }
}

/// Whether a rule naming `rule` applies to a packet carrying `carried`.
pub open spec fn protocol_matches(rule: AclProtocol, carried: IpProtocol) -> bool {
    match rule {
        AclProtocol::Ip => true,
        AclProtocol::Icmp => protocol_value(carried) == 1,
        AclProtocol::Tcp => protocol_value(carried) == 6,
        AclProtocol::Udp => protocol_value(carried) == 17,
    }
}

/// Whether a port satisfies a port condition.
pub open spec fn port_matches(m: PortMatch, port: u16) -> bool {
    match m {
        PortMatch::Any => true,
        PortMatch::Eq(p) => port == p,
        PortMatch::Range(low, high) => low <= port <= high,
    }
}

/// Whether the transport ports of `payload` satisfy both conditions. Without a condition the
/// payload is not read; with one, the first four bytes must hold the source and destination
/// ports.
pub open spec fn ports_match(source_port: PortMatch, destination_port: PortMatch, payload: Seq<u8>) -> bool {
    if source_port == PortMatch::Any && destination_port == PortMatch::Any {
        true
    } else {
        &&& payload.len() >= 4
        &&& port_matches(source_port, be16_at(payload, 0))
        &&& port_matches(destination_port, be16_at(payload, 2))
    }
}

/// What an entry decides for a packet: `None` for a remark or a rule that does not match.
pub open spec fn entry_verdict(
    entry: AclEntry,
    source: Ipv4Addr,
    destination: Ipv4Addr,
    protocol: IpProtocol,
    payload: Seq<u8>,
) -> Option<AccessListAction> {
    match entry {
        AclEntry::Remark(_) => None,
        AclEntry::Rule { action, protocol: p, source: s, source_port, destination: d, destination_port, .. } => {
            if protocol_matches(p, protocol) && wildcard_matches(s.address.0, s.wildcard.0, source.0)
                && wildcard_matches(d.address.0, d.wildcard.0, destination.0) && ports_match(
                source_port,
                destination_port,
                payload,
            ) {
                Some(action)
            } else {
                None
            }
        },
    }
}

/// What an entry decides for `packet`.
pub open spec fn packet_verdict(entry: AclEntry, packet: &Ipv4Packet) -> Option<AccessListAction> {
    entry_verdict(entry, packet.source, packet.destination, packet.protocol, packet.payload@)
}

/// The big-endian port at `payload[i..i + 2]`.
fn read_port(payload: &Vec<u8>, i: usize) -> (r: u16)
    requires
        i + 2 <= payload@.len(),
    ensures
        r == be16_at(payload@, i as int),
{
    let n: usize = payload.len();
    assert(i + 1 < n);
    let high: u16 = payload[i] as u16;
    let low: u16 = payload[i + 1] as u16;
    high * 256 + low
}

fn port_ok(m: PortMatch, port: u16) -> (r: bool)
    ensures
        r == port_matches(m, port),
{
    match m {
        PortMatch::Any => true,
        PortMatch::Eq(p) => port == p,
        PortMatch::Range(low, high) => low <= port && port <= high,
    }
}

fn protocol_ok(rule: AclProtocol, carried: IpProtocol) -> (r: bool)
    ensures
        r == protocol_matches(rule, carried),
{
    let number = carried.to_u8();
    match rule {
        AclProtocol::Ip => true,
        AclProtocol::Icmp => number == 1,
        AclProtocol::Tcp => number == 6,
        AclProtocol::Udp => number == 17,
    }
}

impl AclEntry {
    /// What this entry decides for a packet: the rule's action when the protocol, both
    /// addresses and both port conditions match, and `None` otherwise or for a remark.
    pub fn evaluate(&self, packet: &Ipv4Packet) -> (r: Option<AccessListAction>)
        ensures
            r == packet_verdict(*self, packet),
    {
        match self {
            AclEntry::Remark(_) => None,
            AclEntry::Rule { action, protocol, source, source_port, destination, destination_port, .. } => {
                if !protocol_ok(*protocol, packet.protocol) || !source.matches(packet.source)
                    || !destination.matches(packet.destination) {
                    return None;
                }
                if *source_port == PortMatch::Any && *destination_port == PortMatch::Any {
                    return Some(*action);
                }
                if packet.payload.len() < 4 {
                    return None;
                }
                let sp = read_port(&packet.payload, 0);
                let dp = read_port(&packet.payload, 2);
                if port_ok(*source_port, sp) && port_ok(*destination_port, dp) {
                    Some(*action)
                } else {
                    None
                }
            },
        }
    }
}

/// A named list: its name, its kind, and its entries in increasing sequence order.
#[derive(Debug, Clone)]
pub struct AccessList {
    pub name: String,
    pub kind: AclKind,
    pub entries: Vec<(u32, AclEntry)>,
}

/// A named list as a mathematical value.
#[verifier::ext_equal]
pub struct AccessListView {
    pub name: Seq<char>,
    pub kind: AclKind,
    pub entries: Seq<(u32, AclEntry)>,
}

impl View for AccessList {
    type V = AccessListView;

    open spec fn view(&self) -> AccessListView {
        AccessListView { name: self.name@, kind: self.kind, entries: self.entries@ }
    }
}

/// The lists bound to one interface, for each direction. A numbered and a named list are
/// never bound to the same direction at once.
#[derive(Debug, Clone, Copy)]
pub struct AclBinding {
    pub numbered_in: Option<AccessListId>,
    pub numbered_out: Option<AccessListId>,
    pub named_in: Option<AclId>,
    pub named_out: Option<AclId>,
}

/// An interface with no bound list.
pub open spec fn unbound() -> AclBinding {
    AclBinding { numbered_in: None, numbered_out: None, named_in: None, named_out: None }
}

/// The access-list state of a router: standard numbered lists, named lists numbered from 1
/// in creation order, per-rule match and log counters, and interface bindings.
#[derive(Debug)]
pub struct AclTable {
    numbered: Vec<(AccessListId, Vec<StandardAccessListEntry>)>,
    numbered_matches: Vec<((AccessListId, usize), u64)>,
    named: Vec<AccessList>,
    matches: Vec<((AclId, u32), u64)>,
    logs: Vec<((AclId, u32), u64)>,
    bindings: Vec<(InterfaceId, AclBinding)>,
}

/// An access-list state as a mathematical value.
#[verifier::ext_equal]
pub struct AclTableView {
    pub numbered: Seq<(AccessListId, Seq<StandardAccessListEntry>)>,
    pub numbered_matches: Seq<((AccessListId, usize), u64)>,
    pub named: Seq<AccessListView>,
    pub matches: Seq<((AclId, u32), u64)>,
    pub logs: Seq<((AclId, u32), u64)>,
    pub bindings: Seq<(InterfaceId, AclBinding)>,
}

/// Numbered lists as mathematical values.
pub open spec fn numbered_view(s: Seq<(AccessListId, Vec<StandardAccessListEntry>)>) -> Seq<
    (AccessListId, Seq<StandardAccessListEntry>),
> {
    s.map_values(|e: (AccessListId, Vec<StandardAccessListEntry>)| (e.0, e.1@))
}

/// Named lists as mathematical values.
pub open spec fn named_view(s: Seq<AccessList>) -> Seq<AccessListView> {
    s.map_values(|l: AccessList| l@)
}

impl View for AclTable {
    type V = AclTableView;

    closed spec fn view(&self) -> AclTableView {
        AclTableView {
            numbered: numbered_view(self.numbered@),
            numbered_matches: self.numbered_matches@,
            named: named_view(self.named@),
            matches: self.matches@,
            logs: self.logs@,
            bindings: self.bindings@,
        }
    }
}

/// A state whose keyed tables have unique keys, whose lists are within the rule limit with
/// named entries in sequence order, and whose named lists are within the list limit.
pub open spec fn acl_wf(v: AclTableView) -> bool {
    &&& keys_unique(v.numbered)
    &&& forall|i: int| 0 <= i < v.numbered.len() ==> (#[trigger] v.numbered[i]).1.len() <= MAX_ACL_ENTRIES
    &&& v.named.len() <= MAX_ACL_ENTRIES
    &&& forall|i: int| 0 <= i < v.named.len() ==> sorted_keys((#[trigger] v.named[i]).entries)
        && v.named[i].entries.len() <= MAX_ACL_ENTRIES
    &&& keys_unique(v.numbered_matches)
    &&& keys_unique(v.matches)
    &&& keys_unique(v.logs)
    &&& keys_unique(v.bindings)
}

/// `c + 1`, saturating at the largest counter value.
pub open spec fn sat_inc(c: u64) -> u64 {
    if c == u64::MAX {
        c
    } else {
        (c + 1) as u64
    }
}

/// The counter stored under `k`, zero when there is none.
pub open spec fn count_of<K>(s: Seq<(K, u64)>, k: K) -> u64 {
    if has_key(s, k) {
        value_of(s, k)
    } else {
        0
    }
}

/// The bindings of an interface.
pub open spec fn binding_of(s: Seq<(InterfaceId, AclBinding)>, interface: InterfaceId) -> AclBinding {
    if has_key(s, interface) {
        value_of(s, interface)
    } else {
        unbound()
    }
}

/// Whether list `i` is the first one named `name`.
pub open spec fn first_named(named: Seq<AccessListView>, name: Seq<char>, i: int) -> bool {
    &&& 0 <= i < named.len()
    &&& named[i].name == name
    &&& forall|j: int| 0 <= j < i ==> (#[trigger] named[j]).name != name
}

/// The identifier of the first named list called `name`.
pub open spec fn acl_lookup(named: Seq<AccessListView>, name: Seq<char>) -> Option<AclId> {
    if exists|i: int| first_named(named, name, i) {
        let i = choose|i: int| first_named(named, name, i);
        Some(AclId((i + 1) as u32))
    } else {
        None
    }
}

/// The list an identifier names, when it names one.
pub open spec fn list_index(named: Seq<AccessListView>, id: AclId) -> Option<int> {
    if 1 <= id.0 <= named.len() {
        Some(id.0 - 1)
    } else {
        None
    }
}

/// Whether entry `i` is the first that decides for a packet with these fields.
pub open spec fn first_hit(
    entries: Seq<(u32, AclEntry)>,
    source: Ipv4Addr,
    destination: Ipv4Addr,
    protocol: IpProtocol,
    payload: Seq<u8>,
    i: int,
) -> bool {
    &&& 0 <= i < entries.len()
    &&& entry_verdict(entries[i].1, source, destination, protocol, payload) is Some
    &&& forall|j: int| 0 <= j < i ==> entry_verdict(#[trigger] entries[j].1, source, destination, protocol, payload) is None
}

/// The index of the entry that decides for a packet with these fields, if any.
pub open spec fn deciding_entry(
    entries: Seq<(u32, AclEntry)>,
    source: Ipv4Addr,
    destination: Ipv4Addr,
    protocol: IpProtocol,
    payload: Seq<u8>,
) -> Option<int> {
    if exists|i: int| first_hit(entries, source, destination, protocol, payload, i) {
        Some(choose|i: int| first_hit(entries, source, destination, protocol, payload, i))
    } else {
        None
    }
}

/// Whether a rule asks for its matches to be logged.
pub open spec fn logged(e: AclEntry) -> bool {
    match e {
        AclEntry::Rule { log, .. } => log,
        AclEntry::Remark(_) => false,
    }
}

/// The state and verdict after evaluating named list `id` on `packet`: the deciding rule's
/// match counter (and log counter, for a logged rule) goes up by one, saturating, and the
/// packet passes when that rule permits. A missing list, or a packet no rule matches, is
/// denied without counting.
pub open spec fn evaluate_named_spec(v: AclTableView, id: AclId, packet: &Ipv4Packet) -> (AclTableView, bool) {
    match list_index(v.named, id) {
        None => (v, false),
        Some(li) => {
            let entries = v.named[li].entries;
            match deciding_entry(entries, packet.source, packet.destination, packet.protocol, packet.payload@) {
                None => (v, false),
                Some(i) => {
                    let key = (id, entries[i].0);
                    let logs = if logged(entries[i].1) {
                        put(v.logs, key, sat_inc(count_of(v.logs, key)))
                    } else {
                        v.logs
                    };
                    (
                        AclTableView { matches: put(v.matches, key, sat_inc(count_of(v.matches, key))), logs, ..v },
                        packet_verdict(entries[i].1, packet) == Some(AccessListAction::Permit),
                    )
                },
            }
        },
    }
}

/// Whether rule `i` of a standard list is the first that matches `source`.
pub open spec fn first_source_hit(entries: Seq<StandardAccessListEntry>, source: Ipv4Addr, i: int) -> bool {
    &&& 0 <= i < entries.len()
    &&& wildcard_matches(entries[i].source.0, entries[i].wildcard.0, source.0)
    &&& forall|j: int| 0 <= j < i ==> !wildcard_matches(
        (#[trigger] entries[j]).source.0,
        entries[j].wildcard.0,
        source.0,
    )
}

/// The index of the standard rule that decides for `source`, if any.
pub open spec fn deciding_rule(entries: Seq<StandardAccessListEntry>, source: Ipv4Addr) -> Option<int> {
    if exists|i: int| first_source_hit(entries, source, i) {
        Some(choose|i: int| first_source_hit(entries, source, i))
    } else {
        None
    }
}

/// The state and verdict after evaluating standard list `id` on a packet from `source`:
/// the deciding rule's counter goes up by one, saturating, and the packet passes when it
/// permits. A missing list, or a source no rule matches, is denied.
pub open spec fn evaluate_numbered_spec(v: AclTableView, id: AccessListId, source: Ipv4Addr) -> (AclTableView, bool) {
    if !has_key(v.numbered, id) {
        (v, false)
    } else {
        let entries = value_of(v.numbered, id);
        match deciding_rule(entries, source) {
            None => (v, false),
            Some(i) => {
                let key = (id, i as usize);
                (
                    AclTableView {
                        numbered_matches: put(v.numbered_matches, key, sat_inc(count_of(v.numbered_matches, key))),
                        ..v
                    },
                    entries[i].action == AccessListAction::Permit,
                )
            },
        }
    }
}

/// The name under which a standard list may also exist as a named list: its number.
pub open spec fn number_name(id: AccessListId) -> Seq<char> {
    decimal_text(id.value() as nat)
}

/// The state and verdict after filtering `packet` through what is bound to `interface` in
/// `direction`. `present` tells whether the interface exists; a missing interface denies.
/// A bound named list decides; else a bound numbered list decides, through the named list of
/// the same number when there is one; with nothing bound the packet passes.
pub open spec fn permits_spec(
    v: AclTableView,
    interface: InterfaceId,
    present: bool,
    direction: AccessListDirection,
    packet: &Ipv4Packet,
) -> (AclTableView, bool) {
    if !present {
        (v, false)
    } else {
        let b = binding_of(v.bindings, interface);
        let named = match direction {
            AccessListDirection::In => b.named_in,
            AccessListDirection::Out => b.named_out,
        };
        let numbered = match direction {
            AccessListDirection::In => b.numbered_in,
            AccessListDirection::Out => b.numbered_out,
        };
        match named {
            Some(id) => evaluate_named_spec(v, id, packet),
            None => match numbered {
                None => (v, true),
                Some(n) => match acl_lookup(v.named, number_name(n)) {
                    Some(id) => evaluate_named_spec(v, id, packet),
                    None => evaluate_numbered_spec(v, n, packet.source),
                },
            },
        }
    }
}

/// Whether standard list `id` permits a source, without counting: through the named list of
/// the same number when there is one (probed with an empty packet to 0.0.0.0 of protocol 0),
/// else through the numbered list; a missing list or an unmatched source is denied.
pub open spec fn list_permits_spec(v: AclTableView, id: AccessListId, source: Ipv4Addr) -> bool {
    match acl_lookup(v.named, number_name(id)) {
        Some(nid) => {
            let entries = v.named[nid.0 - 1].entries;
            match deciding_entry(entries, source, Ipv4Addr(0), IpProtocol::Other(0), Seq::empty()) {
                Some(i) => entry_verdict(entries[i].1, source, Ipv4Addr(0), IpProtocol::Other(0), Seq::empty())
                    == Some(AccessListAction::Permit),
                None => false,
            }
        },
        None => has_key(v.numbered, id) && match deciding_rule(value_of(v.numbered, id), source) {
            Some(i) => value_of(v.numbered, id)[i].action == AccessListAction::Permit,
            None => false,
        },
    }
}


/// The standard list with number `n`, as a spec value.
pub closed spec fn list_number(n: nat) -> AccessListId {
    AccessListId(n as u8)
}

/// A character allowed in a list name: an ASCII letter or digit, `_` or `-`.
pub open spec fn acl_name_char(c: char) -> bool {
    let u = c as u32;
    (48 <= u <= 57) || (65 <= u <= 90) || (97 <= u <= 122) || u == 95 || u == 45
}

/// A list name: 1 to 64 allowed characters.
pub open spec fn acl_name_ok(name: Seq<char>) -> bool {
    &&& 1 <= name.len() <= 64
    &&& forall|i: int| 0 <= i < name.len() ==> acl_name_char(#[trigger] name[i])
}

/// Whether `n` is a list number of the given kind: 1-99 or 1300-1999 for standard lists,
/// 100-199 or 2000-2699 for extended ones.
pub open spec fn number_in_range(kind: AclKind, n: nat) -> bool {
    match kind {
        AclKind::Standard => (1 <= n <= 99) || (1300 <= n <= 1999),
        AclKind::Extended => (100 <= n <= 199) || (2000 <= n <= 2699),
    }
}

/// A name of digits only must be the plain decimal text of a number of the list's kind.
pub open spec fn acl_number_ok(name: Seq<char>, kind: AclKind) -> bool {
    all_digits(name) ==> number_in_range(kind, digits_value(name)) && name == decimal_text(
        digits_value(name),
    )
}

/// The named rule equivalent to a standard rule: any protocol from the rule's source to
/// any destination, unlogged.
pub open spec fn std_rule(e: StandardAccessListEntry) -> AclEntry {
    AclEntry::Rule {
        action: e.action,
        protocol: AclProtocol::Ip,
        source: AddressMatch { address: e.source, wildcard: e.wildcard },
        source_port: PortMatch::Any,
        destination: any_address(),
        destination_port: PortMatch::Any,
        log: false,
    }
}

/// The rules of a standard list as named entries numbered 10, 20, 30, ...
pub open spec fn promote(entries: Seq<StandardAccessListEntry>) -> Seq<(u32, AclEntry)> {
    Seq::new(entries.len(), |i: int| (((i + 1) * 10) as u32, std_rule(entries[i])))
}

/// The state and result of selecting the list called `name` of kind `kind`, creating it when
/// no list has that name. A new standard list named after an existing numbered list takes
/// over its rules, and the numbered list goes away. `supported` tells whether the device
/// routes.
pub open spec fn ensure_spec(v: AclTableView, name: Seq<char>, kind: AclKind, supported: bool) -> (
    AclTableView,
    Result<AclId, DeviceError>,
) {
    if !supported {
        (v, Err(DeviceError::AccessListUnsupported))
    } else if !acl_name_ok(name) || !acl_number_ok(name, kind) {
        (v, Err(DeviceError::InvalidAccessList))
    } else {
        match acl_lookup(v.named, name) {
            Some(id) => if v.named[id.0 - 1].kind == kind {
                (v, Ok(id))
            } else {
                (v, Err(DeviceError::InvalidAccessList))
            },
            None => if v.named.len() >= MAX_ACL_ENTRIES {
                (v, Err(DeviceError::AccessListCapacity))
            } else {
                let n = list_number(digits_value(name));
                let promoted = kind == AclKind::Standard && all_digits(name) && digits_value(name)
                    <= 99 && has_key(v.numbered, n);
                let entries = if promoted {
                    promote(value_of(v.numbered, n))
                } else {
                    Seq::empty()
                };
                (
                    AclTableView {
                        named: v.named.push(AccessListView { name, kind, entries }),
                        numbered: if promoted {
                            without(v.numbered, n)
                        } else {
                            v.numbered
                        },
                        ..v
                    },
                    Ok(AclId((v.named.len() + 1) as u32)),
                )
            },
        }
    }
}

/// The sequence given to an entry added without one: ten past the last, saturating, or ten
/// in an empty list.
pub open spec fn next_sequence(entries: Seq<(u32, AclEntry)>) -> u32 {
    if entries.len() == 0 {
        10
    } else if entries.last().0 + 10 > u32::MAX {
        u32::MAX
    } else {
        (entries.last().0 + 10) as u32
    }
}

/// A control character (general category Cc).
pub open spec fn is_control(c: char) -> bool {
    (c as u32) < 0x20 || (0x7f <= (c as u32) <= 0x9f)
}

/// Whether an entry may go into a list of kind `kind`: a remark of at most 240 bytes
/// without control characters; a rule whose port ranges are not reversed, that names ports
/// only for TCP or UDP, and that, in a standard list, matches any protocol and destination.
pub open spec fn entry_ok(entry: AclEntry, kind: AclKind) -> bool {
    match entry {
        AclEntry::Remark(text) => {
            &&& encode_utf8(text@).len() <= 240
            &&& forall|i: int| 0 <= i < text@.len() ==> !is_control(#[trigger] text@[i])
        },
        AclEntry::Rule { protocol, source_port, destination, destination_port, .. } => {
            &&& !(source_port matches PortMatch::Range(low, high) && low > high)
            &&& !(destination_port matches PortMatch::Range(low, high) && low > high)
            &&& (protocol == AclProtocol::Tcp || protocol == AclProtocol::Udp || (source_port
                == PortMatch::Any && destination_port == PortMatch::Any))
            &&& (kind == AclKind::Standard ==> protocol == AclProtocol::Ip && destination
                == any_address())
        },
    }
}

/// The state and result of storing `entry` in list `id` under `sequence`, or under the next
/// sequence when none is given. The rule's counters start again from zero.
pub open spec fn set_entry_spec(v: AclTableView, id: AclId, sequence: Option<u32>, entry: AclEntry) -> (
    AclTableView,
    Result<(), DeviceError>,
) {
    match list_index(v.named, id) {
        None => (v, Err(DeviceError::MissingAccessList)),
        Some(li) => {
            let list = v.named[li];
            let seq = match sequence {
                Some(s) => s,
                None => next_sequence(list.entries),
            };
            if seq == 0 || seq == u32::MAX {
                (v, Err(DeviceError::InvalidAccessList))
            } else if list.entries.len() >= MAX_ACL_ENTRIES && !has_key(list.entries, seq) {
                (v, Err(DeviceError::AccessListCapacity))
            } else if !entry_ok(entry, list.kind) {
                (v, Err(DeviceError::InvalidAccessList))
            } else {
                (
                    AclTableView {
                        named: v.named.update(
                            li,
                            AccessListView { entries: sorted_put(list.entries, seq, entry), ..list },
                        ),
                        matches: without(v.matches, (id, seq)),
                        logs: without(v.logs, (id, seq)),
                        ..v
                    },
                    Ok(()),
                )
            }
        },
    }
}

/// The state and result of removing sequence `sequence` from list `id`, with its counters.
pub open spec fn remove_entry_spec(v: AclTableView, id: AclId, sequence: u32) -> (
    AclTableView,
    Result<(), DeviceError>,
) {
    match list_index(v.named, id) {
        None => (v, Err(DeviceError::MissingAccessList)),
        Some(li) => (
            AclTableView {
                named: v.named.update(
                    li,
                    AccessListView { entries: without(v.named[li].entries, sequence), ..v.named[li] },
                ),
                matches: without(v.matches, (id, sequence)),
                logs: without(v.logs, (id, sequence)),
                ..v
            },
            Ok(()),
        ),
    }
}

/// The state and result of appending `entry` to standard list `id`. When a named list has
/// the list's number as its name, the rule goes there instead, after its last entry.
pub open spec fn add_std_spec(v: AclTableView, id: AccessListId, entry: StandardAccessListEntry, supported: bool) -> (
    AclTableView,
    Result<(), DeviceError>,
) {
    if !supported {
        (v, Err(DeviceError::AccessListUnsupported))
    } else {
        match acl_lookup(v.named, number_name(id)) {
            Some(nid) => set_entry_spec(v, nid, None, std_rule(entry)),
            None => if has_key(v.numbered, id) && value_of(v.numbered, id).len() >= MAX_ACL_ENTRIES {
                (v, Err(DeviceError::AccessListCapacity))
            } else {
                let old = if has_key(v.numbered, id) {
                    value_of(v.numbered, id)
                } else {
                    Seq::empty()
                };
                (AclTableView { numbered: put(v.numbered, id, old.push(entry)), ..v }, Ok(()))
            },
        }
    }
}

/// A binding with named list `id` in `direction`, replacing what was bound there.
pub open spec fn bind_named(b: AclBinding, id: AclId, direction: AccessListDirection) -> AclBinding {
    match direction {
        AccessListDirection::In => AclBinding { named_in: Some(id), numbered_in: None, ..b },
        AccessListDirection::Out => AclBinding { named_out: Some(id), numbered_out: None, ..b },
    }
}

/// A binding with standard list `id` in `direction`, replacing what was bound there.
pub open spec fn bind_numbered(b: AclBinding, id: AccessListId, direction: AccessListDirection) -> AclBinding {
    match direction {
        AccessListDirection::In => AclBinding { numbered_in: Some(id), named_in: None, ..b },
        AccessListDirection::Out => AclBinding { numbered_out: Some(id), named_out: None, ..b },
    }
}

/// The state and result of binding the list called `name` to `interface` in `direction`.
/// `present` tells whether the interface exists.
pub open spec fn bind_named_spec(
    v: AclTableView,
    interface: InterfaceId,
    present: bool,
    name: Seq<char>,
    direction: AccessListDirection,
) -> (AclTableView, Result<(), DeviceError>) {
    match acl_lookup(v.named, name) {
        None => (v, Err(DeviceError::MissingAccessList)),
        Some(id) => if !present {
            (v, Err(DeviceError::MissingInterface))
        } else {
            (
                AclTableView {
                    bindings: put(v.bindings, interface, bind_named(binding_of(v.bindings, interface), id, direction)),
                    ..v
                },
                Ok(()),
            )
        },
    }
}

/// The state and result of binding standard list `id` to `interface` in `direction`, through
/// the named list of the same number when there is one.
pub open spec fn bind_numbered_spec(
    v: AclTableView,
    interface: InterfaceId,
    present: bool,
    id: AccessListId,
    direction: AccessListDirection,
    supported: bool,
) -> (AclTableView, Result<(), DeviceError>) {
    if !supported {
        (v, Err(DeviceError::AccessListUnsupported))
    } else if acl_lookup(v.named, number_name(id)) is Some {
        bind_named_spec(v, interface, present, number_name(id), direction)
    } else if !has_key(v.numbered, id) {
        (v, Err(DeviceError::MissingAccessList))
    } else if !present {
        (v, Err(DeviceError::MissingInterface))
    } else {
        (
            AclTableView {
                bindings: put(v.bindings, interface, bind_numbered(binding_of(v.bindings, interface), id, direction)),
                ..v
            },
            Ok(()),
        )
    }
}

proof fn lemma_first_named_unique(named: Seq<AccessListView>, name: Seq<char>, i: int)
    requires
        first_named(named, name, i),
    ensures
        acl_lookup(named, name) == Some(AclId((i + 1) as u32)),
{
    let k = choose|k: int| first_named(named, name, k);
    if k < i {
        assert(named[k].name != name);
    } else if i < k {
        assert(named[i].name != name);
    }
}

proof fn lemma_first_hit_unique(
    entries: Seq<(u32, AclEntry)>,
    source: Ipv4Addr,
    destination: Ipv4Addr,
    protocol: IpProtocol,
    payload: Seq<u8>,
    i: int,
)
    requires
        first_hit(entries, source, destination, protocol, payload, i),
    ensures
        deciding_entry(entries, source, destination, protocol, payload) == Some(i),
{
    let k = choose|k: int| first_hit(entries, source, destination, protocol, payload, k);
    if k < i {
        assert(entry_verdict(entries[k].1, source, destination, protocol, payload) is None);
    } else if i < k {
        assert(entry_verdict(entries[i].1, source, destination, protocol, payload) is None);
    }
}

proof fn lemma_first_source_hit_unique(entries: Seq<StandardAccessListEntry>, source: Ipv4Addr, i: int)
    requires
        first_source_hit(entries, source, i),
    ensures
        deciding_rule(entries, source) == Some(i),
{
    let k = choose|k: int| first_source_hit(entries, source, k);
    if k < i {
        assert(!wildcard_matches(entries[k].source.0, entries[k].wildcard.0, source.0));
    } else if i < k {
        assert(!wildcard_matches(entries[i].source.0, entries[i].wildcard.0, source.0));
    }
}

/// The first entry deciding for a packet with these fields.
fn find_hit(
    entries: &Vec<(u32, AclEntry)>,
    packet: &Ipv4Packet,
) -> (r: Option<(usize, AccessListAction)>)
    ensures
        r == match deciding_entry(entries@, packet.source, packet.destination, packet.protocol, packet.payload@) {
            Some(i) => Some((i as usize, packet_verdict(entries@[i].1, packet)->0)),
            None => None,
        },
{
    let mut i: usize = 0;
    while i < entries.len()
        invariant
            i <= entries@.len(),
            forall|j: int| 0 <= j < i ==> entry_verdict(#[trigger] entries@[j].1, packet.source, packet.destination, packet.protocol, packet.payload@) is None,
        decreases entries@.len() - i,
    {
        if let Some(action) = entries[i].1.evaluate(packet) {
            proof {
                lemma_first_hit_unique(entries@, packet.source, packet.destination, packet.protocol, packet.payload@, i as int);
            }
            return Some((i, action));
        }
        i = i + 1;
    }
    assert(!exists|k: int| first_hit(entries@, packet.source, packet.destination, packet.protocol, packet.payload@, k));
    None
}

/// The first standard rule matching `source`.
fn find_source_hit(entries: &Vec<StandardAccessListEntry>, source: Ipv4Addr) -> (r: Option<usize>)
    ensures
        r == match deciding_rule(entries@, source) {
            Some(i) => Some(i as usize),
            None => None,
        },
{
    let mut i: usize = 0;
    while i < entries.len()
        invariant
            i <= entries@.len(),
            forall|j: int| 0 <= j < i ==> !wildcard_matches(
                (#[trigger] entries@[j]).source.0,
                entries@[j].wildcard.0,
                source.0,
            ),
        decreases entries@.len() - i,
    {
        if entries[i].matches(source) {
            proof {
                lemma_first_source_hit_unique(entries@, source, i as int);
            }
            return Some(i);
        }
        i = i + 1;
    }
    assert(!exists|k: int| first_source_hit(entries@, source, k));
    None
}

fn find_numbered(s: &Vec<(AccessListId, Vec<StandardAccessListEntry>)>, k: AccessListId) -> (r: Option<usize>)
    requires
        keys_unique(numbered_view(s@)),
    ensures
        match r {
            Some(i) => i < s@.len() && has_key(numbered_view(s@), k) && key_index(numbered_view(s@), k) == i
                && s@[i as int].0 == k,
            None => !has_key(numbered_view(s@), k),
        },
{
    let ghost v = numbered_view(s@);
    let mut i: usize = 0;
    while i < s.len()
        invariant
            v == numbered_view(s@),
            keys_unique(v),
            i <= s@.len(),
            forall|j: int| 0 <= j < i ==> #[trigger] v[j].0 != k,
        decreases s@.len() - i,
    {
        if s[i].0.0 == k.0 {
            proof {
                lemma_key_index(v, i as int);
            }
            return Some(i);
        }
        i = i + 1;
    }
    None
}

fn find_named_counter(s: &Vec<((AclId, u32), u64)>, k: (AclId, u32)) -> (r: Option<usize>)
    requires
        keys_unique(s@),
    ensures
        match r {
            Some(i) => i < s@.len() && has_key(s@, k) && key_index(s@, k) == i && s@[i as int].0 == k,
            None => !has_key(s@, k),
        },
{
    let mut i: usize = 0;
    while i < s.len()
        invariant
            keys_unique(s@),
            i <= s@.len(),
            forall|j: int| 0 <= j < i ==> #[trigger] s@[j].0 != k,
        decreases s@.len() - i,
    {
        if s[i].0.0.0 == k.0.0 && s[i].0.1 == k.1 {
            proof {
                lemma_key_index(s@, i as int);
            }
            return Some(i);
        }
        i = i + 1;
    }
    None
}

fn find_numbered_counter(s: &Vec<((AccessListId, usize), u64)>, k: (AccessListId, usize)) -> (r: Option<usize>)
    requires
        keys_unique(s@),
    ensures
        match r {
            Some(i) => i < s@.len() && has_key(s@, k) && key_index(s@, k) == i && s@[i as int].0 == k,
            None => !has_key(s@, k),
        },
{
    let mut i: usize = 0;
    while i < s.len()
        invariant
            keys_unique(s@),
            i <= s@.len(),
            forall|j: int| 0 <= j < i ==> #[trigger] s@[j].0 != k,
        decreases s@.len() - i,
    {
        if s[i].0.0.0 == k.0.0 && s[i].0.1 == k.1 {
            proof {
                lemma_key_index(s@, i as int);
            }
            return Some(i);
        }
        i = i + 1;
    }
    None
}

/// Raise the counter under `k` by one, saturating, creating it at one.
fn bump_named_counter(s: &mut Vec<((AclId, u32), u64)>, k: (AclId, u32))
    requires
        keys_unique(old(s)@),
    ensures
        final(s)@ == put(old(s)@, k, sat_inc(count_of(old(s)@, k))),
        keys_unique(final(s)@),
{
    proof {
        lemma_put_unique(old(s)@, k, sat_inc(count_of(old(s)@, k)));
    }
    match find_named_counter(s, k) {
        Some(i) => {
            let c = s[i].1;
            let n = if c == u64::MAX { c } else { c + 1 };
            s.set(i, (k, n));
        },
        None => {
            s.push((k, 1));
        },
    }
}

/// Drop the counter under `k`.
fn clear_named_counter(s: &mut Vec<((AclId, u32), u64)>, k: (AclId, u32))
    requires
        keys_unique(old(s)@),
    ensures
        final(s)@ == without(old(s)@, k),
        keys_unique(final(s)@),
{
    proof {
        lemma_without_unique(old(s)@, k);
    }
    if let Some(i) = find_named_counter(s, k) {
        let _ = s.remove(i);
    }
}

/// Raise the counter under `k` by one, saturating, creating it at one.
fn bump_numbered_counter(s: &mut Vec<((AccessListId, usize), u64)>, k: (AccessListId, usize))
    requires
        keys_unique(old(s)@),
    ensures
        final(s)@ == put(old(s)@, k, sat_inc(count_of(old(s)@, k))),
        keys_unique(final(s)@),
{
    proof {
        lemma_put_unique(old(s)@, k, sat_inc(count_of(old(s)@, k)));
    }
    match find_numbered_counter(s, k) {
        Some(i) => {
            let c = s[i].1;
            let n = if c == u64::MAX { c } else { c + 1 };
            s.set(i, (k, n));
        },
        None => {
            s.push((k, 1));
        },
    }
}

/// The first named list called `name`.
fn find_list(named: &Vec<AccessList>, name: &String) -> (r: Option<usize>)
    ensures
        match r {
            Some(i) => first_named(named_view(named@), name@, i as int),
            None => !exists|i: int| first_named(named_view(named@), name@, i),
        },
{
    let ghost v = named_view(named@);
    let mut i: usize = 0;
    while i < named.len()
        invariant
            v == named_view(named@),
            i <= named@.len(),
            forall|j: int| 0 <= j < i ==> (#[trigger] v[j]).name != name@,
        decreases named@.len() - i,
    {
        if named[i].name == *name {
            return Some(i);
        }
        i = i + 1;
    }
    None
}

fn find_binding(s: &Vec<(InterfaceId, AclBinding)>, k: InterfaceId) -> (r: Option<usize>)
    requires
        keys_unique(s@),
    ensures
        match r {
            Some(i) => i < s@.len() && has_key(s@, k) && key_index(s@, k) == i && s@[i as int].0 == k,
            None => !has_key(s@, k),
        },
{
    let mut i: usize = 0;
    while i < s.len()
        invariant
            keys_unique(s@),
            i <= s@.len(),
            forall|j: int| 0 <= j < i ==> #[trigger] s@[j].0 != k,
        decreases s@.len() - i,
    {
        if s[i].0.0 == k.0 {
            proof {
                lemma_key_index(s@, i as int);
            }
            return Some(i);
        }
        i = i + 1;
    }
    None
}


/// The rules of a standard list as named entries numbered 10, 20, 30, ...
fn promote_entries(old: &Vec<StandardAccessListEntry>) -> (r: Vec<(u32, AclEntry)>)
    requires
        old@.len() <= MAX_ACL_ENTRIES,
    ensures
        r@ == promote(old@),
        sorted_keys(r@),
{
    let mut r: Vec<(u32, AclEntry)> = Vec::new();
    let mut i: usize = 0;
    while i < old.len()
        invariant
            old@.len() <= MAX_ACL_ENTRIES,
            i <= old@.len(),
            r@.len() == i,
            forall|j: int| 0 <= j < i ==> #[trigger] r@[j] == (((j + 1) * 10) as u32, std_rule(old@[j])),
        decreases old@.len() - i,
    {
        let e = old[i];
        let seq: u32 = ((i + 1) * 10) as u32;
        r.push((seq, std_entry(e)));
        i = i + 1;
    }
    assert(r@ =~= promote(old@));
    proof {
        assert forall|a: int, b: int| 0 <= a < b < r@.len() implies #[trigger] r@[a].0 < #[trigger] r@[b].0 by {
            assert(r@[a].0 == (a + 1) * 10);
            assert(r@[b].0 == (b + 1) * 10);
        }
    }
    r
}

/// The named rule equivalent to a standard rule.
fn std_entry(e: StandardAccessListEntry) -> (r: AclEntry)
    ensures
        r == std_rule(e),
{
    AclEntry::Rule {
        action: e.action,
        protocol: AclProtocol::Ip,
        source: AddressMatch { address: e.source, wildcard: e.wildcard },
        source_port: PortMatch::Any,
        destination: AddressMatch::any(),
        destination_port: PortMatch::Any,
        log: false,
    }
}

fn reversed(m: PortMatch) -> (r: bool)
    ensures
        r == (m matches PortMatch::Range(low, high) && low > high),
{
    match m {
        PortMatch::Range(low, high) => low > high,
        _ => false,
    }
}

fn no_control(text: &String) -> (r: bool)
    ensures
        r == forall|i: int| 0 <= i < text@.len() ==> !is_control(#[trigger] text@[i]),
{
    let chars = crate::text::str_chars(text.as_str());
    let mut i: usize = 0;
    while i < chars.len()
        invariant
            chars@ == text@,
            i <= chars@.len(),
            forall|j: int| 0 <= j < i ==> !is_control(#[trigger] chars@[j]),
        decreases chars@.len() - i,
    {
        let u = chars[i] as u32;
        if u < 0x20 || (0x7f <= u && u <= 0x9f) {
            assert(is_control(chars@[i as int]));
            return false;
        }
        i = i + 1;
    }
    true
}

/// Whether `entry` may go into a list of kind `kind`.
fn entry_valid(entry: &AclEntry, kind: AclKind) -> (r: bool)
    ensures
        r == entry_ok(*entry, kind),
{
    match entry {
        AclEntry::Remark(text) => text.as_str().as_bytes().len() <= 240 && no_control(text),
        AclEntry::Rule { protocol, source_port, destination, destination_port, .. } => {
            if reversed(*source_port) || reversed(*destination_port) {
                return false;
            }
            let transport = *protocol == AclProtocol::Tcp || *protocol == AclProtocol::Udp;
            if !transport && (*source_port != PortMatch::Any || *destination_port != PortMatch::Any) {
                return false;
            }
            if kind == AclKind::Standard {
                let any = AddressMatch::any();
                if *protocol != AclProtocol::Ip || destination.address.0 != any.address.0
                    || destination.wildcard.0 != any.wildcard.0 {
                    return false;
                }
            }
            true
        },
    }
}

fn same_chars(a: &Vec<char>, b: &Vec<char>) -> (r: bool)
    ensures
        r == (a@ == b@),
{
    if a.len() != b.len() {
        return false;
    }
    let mut i: usize = 0;
    while i < a.len()
        invariant
            a@.len() == b@.len(),
            i <= a@.len(),
            forall|j: int| 0 <= j < i ==> a@[j] == b@[j],
        decreases a@.len() - i,
    {
        if a[i] != b[i] {
            return false;
        }
        i = i + 1;
    }
    assert(a@ =~= b@);
    true
}

/// Store binding `b` for interface `k`.
fn put_binding(s: &mut Vec<(InterfaceId, AclBinding)>, k: InterfaceId, b: AclBinding)
    requires
        keys_unique(old(s)@),
    ensures
        final(s)@ == put(old(s)@, k, b),
        keys_unique(final(s)@),
{
    proof {
        lemma_put_unique(old(s)@, k, b);
    }
    match find_binding(s, k) {
        Some(i) => {
            s.set(i, (k, b));
        },
        None => {
            s.push((k, b));
        },
    }
}

/// The decimal text of a list number, as an owned string.
fn number_string(id: AccessListId) -> (s: String)
    ensures
        s@ == number_name(id),
{
    let mut chars: Vec<char> = Vec::new();
    crate::decimal::push_decimal(&mut chars, id.get() as u32);
    assert(chars@ =~= number_name(id));
    crate::text::string_from_chars(&chars)
}

impl AclTable {
    /// A router with no lists, counters or bindings.
    pub fn new() -> (r: AclTable)
        ensures
            r@ == (AclTableView {
                numbered: Seq::empty(),
                numbered_matches: Seq::empty(),
                named: Seq::empty(),
                matches: Seq::empty(),
                logs: Seq::empty(),
                bindings: Seq::empty(),
            }),
            acl_wf(r@),
    {
        let r = AclTable {
            numbered: Vec::new(),
            numbered_matches: Vec::new(),
            named: Vec::new(),
            matches: Vec::new(),
            logs: Vec::new(),
            bindings: Vec::new(),
        };
        assert(r@ =~= AclTableView {
            numbered: Seq::empty(),
            numbered_matches: Seq::empty(),
            named: Seq::empty(),
            matches: Seq::empty(),
            logs: Seq::empty(),
            bindings: Seq::empty(),
        });
        r
    }

    /// The identifier of the first named list called `name`.
    pub fn acl_id(&self, name: &str) -> (r: Option<AclId>)
        requires
            acl_wf(self@),
        ensures
            r == acl_lookup(self@.named, name@),
    {
        let owned = crate::text::string_from_chars(&crate::text::str_chars(name));
        self.lookup(&owned)
    }

    fn lookup(&self, name: &String) -> (r: Option<AclId>)
        requires
            acl_wf(self@),
        ensures
            r == acl_lookup(self@.named, name@),
    {
        match find_list(&self.named, name) {
            Some(i) => {
                proof {
                    lemma_first_named_unique(self@.named, name@, i as int);
                }
                Some(AclId((i + 1) as u32))
            },
            None => None,
        }
    }

    /// Packets that rule `sequence` of list `id` matched since that rule was last edited.
    pub fn acl_match_count(&self, id: AclId, sequence: u32) -> (r: u64)
        requires
            acl_wf(self@),
        ensures
            r == count_of(self@.matches, (id, sequence)),
    {
        match find_named_counter(&self.matches, (id, sequence)) {
            Some(i) => self.matches[i].1,
            None => 0,
        }
    }

    /// The named list `id`, if it exists.
    pub fn list(&self, id: AclId) -> (r: Option<&AccessList>)
        requires
            acl_wf(self@),
        ensures
            match list_index(self@.named, id) {
                Some(i) => r matches Some(l) && l@ == self@.named[i],
                None => r is None,
            },
    {
        if 1 <= id.0 && (id.0 as usize) <= self.named.len() {
            Some(&self.named[(id.0 - 1) as usize])
        } else {
            None
        }
    }

    /// Evaluate named list `id` on a packet, counting the deciding rule.
    pub fn evaluate_named_acl(&mut self, id: AclId, packet: &Ipv4Packet) -> (r: bool)
        requires
            acl_wf(old(self)@),
        ensures
            final(self)@ == evaluate_named_spec(old(self)@, id, packet).0,
            r == evaluate_named_spec(old(self)@, id, packet).1,
            acl_wf(final(self)@),
    {
        if !(1 <= id.0 && (id.0 as usize) <= self.named.len()) {
            return false;
        }
        let li: usize = (id.0 - 1) as usize;
        let ghost entries = self@.named[li as int].entries;
        assert(self.named@[li as int].entries@ == entries);
        let found = find_hit(&self.named[li].entries, packet);
        match found {
            None => false,
            Some((i, action)) => {
                let sequence = self.named[li].entries[i].0;
                let log = match &self.named[li].entries[i].1 {
                    AclEntry::Rule { log, .. } => *log,
                    AclEntry::Remark(_) => false,
                };
                let key = (id, sequence);
                bump_named_counter(&mut self.matches, key);
                if log {
                    bump_named_counter(&mut self.logs, key);
                }
                proof {
                    let s = evaluate_named_spec(old(self)@, id, packet).0;
                    assert(self@.named == old(self)@.named);
                    assert(self@ =~= s);
                }
                match action {
                    AccessListAction::Permit => true,
                    AccessListAction::Deny => false,
                }
            },
        }
    }

    fn evaluate_numbered(&mut self, id: AccessListId, source: Ipv4Addr) -> (r: bool)
        requires
            acl_wf(old(self)@),
        ensures
            final(self)@ == evaluate_numbered_spec(old(self)@, id, source).0,
            r == evaluate_numbered_spec(old(self)@, id, source).1,
            acl_wf(final(self)@),
    {
        match find_numbered(&self.numbered, id) {
            None => false,
            Some(k) => {
                assert(numbered_view(self.numbered@)[k as int].1 == self.numbered@[k as int].1@);
                match find_source_hit(&self.numbered[k].1, source) {
                    None => false,
                    Some(i) => {
                        let permit = match self.numbered[k].1[i].action {
                            AccessListAction::Permit => true,
                            AccessListAction::Deny => false,
                        };
                        bump_numbered_counter(&mut self.numbered_matches, (id, i));
                        proof {
                            let s = evaluate_numbered_spec(old(self)@, id, source).0;
                            assert(self@ =~= s);
                        }
                        permit
                    },
                }
            },
        }
    }


    /// Select the list called `name` of kind `kind`, creating it when no list has that name.
    /// A new standard list named after an existing numbered list takes over its rules.
    /// The device must route.
    pub fn ensure_acl(&mut self, name: &str, kind: AclKind, device: &Device) -> (r: Result<AclId, DeviceError>)
        requires
            acl_wf(old(self)@),
        ensures
            acl_wf(final(self)@),
            (final(self)@, r) == ensure_spec(old(self)@, name@, kind, routing(device@.device_type)),
    {
        let supported = device.supports_routing();
        if !supported {
            return Err(DeviceError::AccessListUnsupported);
        }
        let chars = crate::text::str_chars(name);
        if chars.len() == 0 || chars.len() > 64 {
            return Err(DeviceError::InvalidAccessList);
        }
        let mut k: usize = 0;
        let mut digits = true;
        while k < chars.len()
            invariant
                routing(device@.device_type),
                self@ == old(self)@,
                acl_wf(old(self)@),
                supported,
                chars@ == name@,
                1 <= chars@.len() <= 64,
                k <= chars@.len(),
                forall|j: int| 0 <= j < k ==> acl_name_char(#[trigger] chars@[j]),
                digits == forall|j: int| 0 <= j < k ==> is_digit(#[trigger] chars@[j]),
            decreases chars@.len() - k,
        {
            let u = chars[k] as u32;
            if !((48 <= u && u <= 57) || (65 <= u && u <= 90) || (97 <= u && u <= 122) || u == 95
                || u == 45) {
                assert(!acl_name_char(chars@[k as int]));
                return Err(DeviceError::InvalidAccessList);
            }
            if !(48 <= u && u <= 57) {
                digits = false;
            }
            k = k + 1;
        }
        assert(digits == all_digits(chars@));
        let mut number: u32 = 0;
        if digits {
            assert(chars@.subrange(0, chars@.len() as int) =~= chars@);
            match crate::decimal::parse_decimal(&chars, 0, chars.len(), 65535) {
                None => {
                    return Err(DeviceError::InvalidAccessList);
                },
                Some(v) => {
                    let in_range = match kind {
                        AclKind::Standard => (1 <= v && v <= 99) || (1300 <= v && v <= 1999),
                        AclKind::Extended => (100 <= v && v <= 199) || (2000 <= v && v <= 2699),
                    };
                    if !in_range {
                        return Err(DeviceError::InvalidAccessList);
                    }
                    let mut text: Vec<char> = Vec::new();
                    crate::decimal::push_decimal(&mut text, v);
                    assert(text@ =~= decimal_text(v as nat));
                    if !same_chars(&text, &chars) {
                        return Err(DeviceError::InvalidAccessList);
                    }
                    number = v;
                },
            }
        }
        let owned = crate::text::string_from_chars(&chars);
        if let Some(id) = self.lookup(&owned) {
            let li: usize = (id.0 - 1) as usize;
            if self.named[li].kind == kind {
                return Ok(id);
            } else {
                return Err(DeviceError::InvalidAccessList);
            }
        }
        if self.named.len() >= MAX_ACL_ENTRIES {
            return Err(DeviceError::AccessListCapacity);
        }
        let id = AclId((self.named.len() + 1) as u32);
        let mut entries: Vec<(u32, AclEntry)> = Vec::new();
        let ghost before = self@;
        let ghost n = list_number(digits_value(name@));
        if kind == AclKind::Standard && digits && number <= 99 {
            let list_id = AccessListId(number as u8);
            assert(list_id == n);
            if let Some(k) = find_numbered(&self.numbered, list_id) {
                let ghost old_numbered = self.numbered@;
                let (_, old_entries) = self.numbered.remove(k);
                proof {
                    assert(numbered_view(old_numbered)[k as int].1 == old_entries@);
                    assert(old_entries@.len() <= MAX_ACL_ENTRIES);
                    assert(numbered_view(self.numbered@) =~= numbered_view(old_numbered).remove(k as int));
                    lemma_without_unique(before.numbered, n);
                }
                entries = promote_entries(&old_entries);
            }
        }
        assert(sorted_keys(entries@));
        let ghost old_named = self.named@;
        self.named.push(AccessList { name: owned, kind, entries });
        proof {
            assert(named_view(self.named@) =~= named_view(old_named).push(self.named@.last()@));
            let spec = ensure_spec(old(self)@, name@, kind, supported).0;
            assert(self@.numbered =~= spec.numbered);
            assert(self@ =~= spec);
            let v = self@;
            assert forall|i: int| 0 <= i < v.numbered.len() implies (#[trigger] v.numbered[i]).1.len() <= MAX_ACL_ENTRIES by {
                if v.numbered != before.numbered {
                    let kk = key_index(before.numbered, n);
                    let i2 = if i < kk { i } else { i + 1 };
                    assert(v.numbered[i] == before.numbered[i2]);
                }
            }
            assert forall|i: int| 0 <= i < v.named.len() implies sorted_keys((#[trigger] v.named[i]).entries)
                && v.named[i].entries.len() <= MAX_ACL_ENTRIES by {
                if i < v.named.len() - 1 {
                    assert(v.named[i] == before.named[i]);
                }
            }
        }
        Ok(id)
    }

    /// Store `entry` in list `id` under `sequence`, or ten past the last sequence when none is
    /// given, replacing an entry with that sequence and clearing its counters.
    pub fn set_acl_entry(&mut self, id: AclId, sequence: Option<u32>, entry: AclEntry) -> (r: Result<(), DeviceError>)
        requires
            acl_wf(old(self)@),
        ensures
            acl_wf(final(self)@),
            (final(self)@, r) == set_entry_spec(old(self)@, id, sequence, entry),
    {
        if !(1 <= id.0 && (id.0 as usize) <= self.named.len()) {
            return Err(DeviceError::MissingAccessList);
        }
        let li: usize = (id.0 - 1) as usize;
        let ghost list = self@.named[li as int];
        assert(self.named@[li as int]@ == list);
        let n = self.named[li].entries.len();
        let seq = match sequence {
            Some(s) => s,
            None => if n == 0 {
                10
            } else {
                self.named[li].entries[n - 1].0.saturating_add(10)
            },
        };
        if seq == 0 || seq == u32::MAX {
            return Err(DeviceError::InvalidAccessList);
        }
        if n >= MAX_ACL_ENTRIES && find_sequence(&self.named[li].entries, seq).is_none() {
            return Err(DeviceError::AccessListCapacity);
        }
        if !entry_valid(&entry, self.named[li].kind) {
            return Err(DeviceError::InvalidAccessList);
        }
        let ghost old_named = self.named@;
        let mut l = self.named.remove(li);
        assert(l.entries@ == list.entries);
        put_entry(&mut l.entries, seq, entry);
        assert(l.entries@ == sorted_put(list.entries, seq, entry));
        assert(sorted_keys(l.entries@));
        proof {
            if has_key(list.entries, seq) {
                assert(l.entries@.len() == list.entries.len());
            } else {
                assert(l.entries@.len() == list.entries.len() + 1);
            }
        }
        let ghost new_entries = l.entries@;
        self.named.insert(li, l);
        clear_named_counter(&mut self.matches, (id, seq));
        clear_named_counter(&mut self.logs, (id, seq));
        proof {
            assert(self.named@ =~= old_named.update(li as int, self.named@[li as int]));
            assert(named_view(self.named@) =~= named_view(old_named).update(li as int, self.named@[li as int]@));
            let spec = set_entry_spec(old(self)@, id, sequence, entry).0;
            assert(self@ =~= spec);
            let v = self@;
            assert forall|i: int| 0 <= i < v.named.len() implies sorted_keys((#[trigger] v.named[i]).entries)
                && v.named[i].entries.len() <= MAX_ACL_ENTRIES by {
                if i != li {
                    assert(v.named[i] == old(self)@.named[i]);
                } else {
                    assert(v.named[i].entries == new_entries);
                }
            }
        }
        Ok(())
    }

    /// Remove sequence `sequence` from list `id`, with its counters.
    pub fn remove_acl_entry(&mut self, id: AclId, sequence: u32) -> (r: Result<(), DeviceError>)
        requires
            acl_wf(old(self)@),
        ensures
            acl_wf(final(self)@),
            (final(self)@, r) == remove_entry_spec(old(self)@, id, sequence),
    {
        if !(1 <= id.0 && (id.0 as usize) <= self.named.len()) {
            return Err(DeviceError::MissingAccessList);
        }
        let li: usize = (id.0 - 1) as usize;
        let ghost list = self@.named[li as int];
        assert(self.named@[li as int]@ == list);
        let ghost old_named = self.named@;
        let mut l = self.named.remove(li);
        proof {
            lemma_sorted_unique(l.entries@);
        }
        if let Some(k) = find_sequence(&l.entries, sequence) {
            proof {
                lemma_remove_sorted(l.entries@, k as int);
            }
            let _ = l.entries.remove(k);
        }
        self.named.insert(li, l);
        clear_named_counter(&mut self.matches, (id, sequence));
        clear_named_counter(&mut self.logs, (id, sequence));
        proof {
            assert(self.named@ =~= old_named.update(li as int, self.named@[li as int]));
            assert(named_view(self.named@) =~= named_view(old_named).update(li as int, self.named@[li as int]@));
            let spec = remove_entry_spec(old(self)@, id, sequence).0;
            assert(self@ =~= spec);
            let v = self@;
            assert forall|i: int| 0 <= i < v.named.len() implies sorted_keys((#[trigger] v.named[i]).entries)
                && v.named[i].entries.len() <= MAX_ACL_ENTRIES by {
                if i != li {
                    assert(v.named[i] == old(self)@.named[i]);
                }
            }
        }
        Ok(())
    }

    /// Append a rule to standard list `id`, or to the named list of the same number when
    /// there is one. The device must route.
    pub fn add_access_list_entry(&mut self, id: AccessListId, entry: StandardAccessListEntry, device: &Device) -> (r: Result<(), DeviceError>)
        requires
            acl_wf(old(self)@),
        ensures
            acl_wf(final(self)@),
            (final(self)@, r) == add_std_spec(old(self)@, id, entry, routing(device@.device_type)),
    {
        let supported = device.supports_routing();
        if !supported {
            return Err(DeviceError::AccessListUnsupported);
        }
        let name = number_string(id);
        if let Some(nid) = self.lookup(&name) {
            return self.set_acl_entry(nid, None, std_entry(entry));
        }
        let ghost before = self@;
        let ghost old_numbered = self.numbered@;
        match find_numbered(&self.numbered, id) {
            Some(k) => {
                assert(numbered_view(old_numbered)[k as int].1 == old_numbered[k as int].1@);
                if self.numbered[k].1.len() >= MAX_ACL_ENTRIES {
                    return Err(DeviceError::AccessListCapacity);
                }
                let (key, mut list) = self.numbered.remove(k);
                list.push(entry);
                self.numbered.insert(k, (key, list));
                proof {
                    assert(self.numbered@ =~= old_numbered.update(k as int, self.numbered@[k as int]));
                    assert(numbered_view(self.numbered@) =~= numbered_view(old_numbered).update(
                        k as int,
                        (id, value_of(before.numbered, id).push(entry)),
                    ));
                }
            },
            None => {
                let mut list: Vec<StandardAccessListEntry> = Vec::new();
                list.push(entry);
                self.numbered.push((id, list));
                proof {
                    assert(numbered_view(self.numbered@) =~= numbered_view(old_numbered).push(
                        (id, Seq::<StandardAccessListEntry>::empty().push(entry)),
                    ));
                }
            },
        }
        proof {
            let spec = add_std_spec(old(self)@, id, entry, supported).0;
            assert(self@ =~= spec);
            lemma_put_unique(before.numbered, id, spec.numbered.last().1);
            let v = self@;
            assert forall|i: int| 0 <= i < v.numbered.len() implies (#[trigger] v.numbered[i]).1.len() <= MAX_ACL_ENTRIES by {
                if i < before.numbered.len() && v.numbered[i] != before.numbered[i] {
                    assert(v.numbered[i].1.len() == before.numbered[i].1.len() + 1);
                }
            }
        }
        Ok(())
    }

    /// Bind the list called `name` to `interface` in `direction`, replacing what was bound
    /// there. `present` tells whether the interface exists.
    pub fn set_named_access_group(
        &mut self,
        interface: InterfaceId,
        present: bool,
        name: &str,
        direction: AccessListDirection,
    ) -> (r: Result<(), DeviceError>)
        requires
            acl_wf(old(self)@),
        ensures
            acl_wf(final(self)@),
            (final(self)@, r) == bind_named_spec(old(self)@, interface, present, name@, direction),
    {
        let owned = crate::text::string_from_chars(&crate::text::str_chars(name));
        self.bind_named(interface, present, &owned, direction)
    }

    fn bind_named(
        &mut self,
        interface: InterfaceId,
        present: bool,
        name: &String,
        direction: AccessListDirection,
    ) -> (r: Result<(), DeviceError>)
        requires
            acl_wf(old(self)@),
        ensures
            acl_wf(final(self)@),
            (final(self)@, r) == bind_named_spec(old(self)@, interface, present, name@, direction),
    {
        let id = match self.lookup(name) {
            Some(id) => id,
            None => {
                return Err(DeviceError::MissingAccessList);
            },
        };
        if !present {
            return Err(DeviceError::MissingInterface);
        }
        let b = match find_binding(&self.bindings, interface) {
            Some(i) => self.bindings[i].1,
            None => AclBinding { numbered_in: None, numbered_out: None, named_in: None, named_out: None },
        };
        let nb = match direction {
            AccessListDirection::In => AclBinding { named_in: Some(id), numbered_in: None, ..b },
            AccessListDirection::Out => AclBinding { named_out: Some(id), numbered_out: None, ..b },
        };
        put_binding(&mut self.bindings, interface, nb);
        proof {
            let spec = bind_named_spec(old(self)@, interface, present, name@, direction).0;
            assert(self@ =~= spec);
        }
        Ok(())
    }

    /// Bind standard list `id` to `interface` in `direction`, through the named list of the
    /// same number when there is one. `present` tells whether the interface exists and
    /// The device must route.
    pub fn set_access_group(
        &mut self,
        interface: InterfaceId,
        present: bool,
        id: AccessListId,
        direction: AccessListDirection,
        device: &Device,
    ) -> (r: Result<(), DeviceError>)
        requires
            acl_wf(old(self)@),
        ensures
            acl_wf(final(self)@),
            (final(self)@, r) == bind_numbered_spec(old(self)@, interface, present, id, direction, routing(device@.device_type)),
    {
        let supported = device.supports_routing();
        if !supported {
            return Err(DeviceError::AccessListUnsupported);
        }
        let name = number_string(id);
        if self.lookup(&name).is_some() {
            return self.bind_named(interface, present, &name, direction);
        }
        if find_numbered(&self.numbered, id).is_none() {
            return Err(DeviceError::MissingAccessList);
        }
        if !present {
            return Err(DeviceError::MissingInterface);
        }
        let b = match find_binding(&self.bindings, interface) {
            Some(i) => self.bindings[i].1,
            None => AclBinding { numbered_in: None, numbered_out: None, named_in: None, named_out: None },
        };
        let nb = match direction {
            AccessListDirection::In => AclBinding { numbered_in: Some(id), named_in: None, ..b },
            AccessListDirection::Out => AclBinding { numbered_out: Some(id), named_out: None, ..b },
        };
        put_binding(&mut self.bindings, interface, nb);
        proof {
            let spec = bind_numbered_spec(old(self)@, interface, present, id, direction, supported).0;
            assert(self@ =~= spec);
        }
        Ok(())
    }

    /// Whether list number `id` is defined: as a numbered list, or as a named list whose
    /// name is the number.
    pub fn list_known(&self, id: AccessListId) -> (r: bool)
        requires
            acl_wf(self@),
        ensures
            r == (has_key(self@.numbered, id) || acl_lookup(self@.named, number_name(id)) is Some),
    {
        let name = number_string(id);
        if self.lookup(&name).is_some() {
            return true;
        }
        let mut i: usize = 0;
        while i < self.numbered.len()
            invariant
                acl_wf(self@),
                acl_lookup(self@.named, number_name(id)) is None,
                i <= self.numbered@.len(),
                self@.numbered.len() == self.numbered@.len(),
                forall|j: int| 0 <= j < i ==> #[trigger] self@.numbered[j].0 != id,
            decreases self.numbered@.len() - i,
        {
            assert(self@.numbered[i as int].0 == self.numbered@[i as int].0);
            if self.numbered[i].0.get() == id.get() {
                assert(self@.numbered[i as int].0 == id);
                return true;
            }
            i = i + 1;
        }
        false
    }

    /// Whether standard list `id` permits `source`, without counting.
    pub fn access_list_permits(&self, id: AccessListId, source: Ipv4Addr) -> (r: bool)
        requires
            acl_wf(self@),
        ensures
            r == list_permits_spec(self@, id, source),
    {
        let name = number_string(id);
        if let Some(nid) = self.lookup(&name) {
            let li: usize = (nid.0 - 1) as usize;
            let probe = Ipv4Packet {
                source,
                destination: Ipv4Addr(0),
                ttl: 64,
                protocol: IpProtocol::Other(0),
                payload: Vec::new(),
            };
            assert(probe.payload@ =~= Seq::<u8>::empty());
            assert(self.named@[li as int].entries@ == self@.named[li as int].entries);
            return match find_hit(&self.named[li].entries, &probe) {
                Some((_, AccessListAction::Permit)) => true,
                _ => false,
            };
        }
        match find_numbered(&self.numbered, id) {
            None => false,
            Some(k) => {
                assert(numbered_view(self.numbered@)[k as int].1 == self.numbered@[k as int].1@);
                match find_source_hit(&self.numbered[k].1, source) {
                    None => false,
                    Some(i) => match self.numbered[k].1[i].action {
                        AccessListAction::Permit => true,
                        AccessListAction::Deny => false,
                    },
                }
            },
        }
    }

    /// Filter a packet through what is bound to `interface` in `direction`, counting the
    /// deciding rule. `present` tells whether the interface exists on the device.
    pub fn permits_ipv4(
        &mut self,
        interface: InterfaceId,
        present: bool,
        direction: AccessListDirection,
        packet: &Ipv4Packet,
    ) -> (r: bool)
        requires
            acl_wf(old(self)@),
        ensures
            final(self)@ == permits_spec(old(self)@, interface, present, direction, packet).0,
            r == permits_spec(old(self)@, interface, present, direction, packet).1,
            acl_wf(final(self)@),
    {
        if !present {
            return false;
        }
        let b = match find_binding(&self.bindings, interface) {
            Some(i) => self.bindings[i].1,
            None => AclBinding { numbered_in: None, numbered_out: None, named_in: None, named_out: None },
        };
        let (named, numbered) = match direction {
            AccessListDirection::In => (b.named_in, b.numbered_in),
            AccessListDirection::Out => (b.named_out, b.numbered_out),
        };
        if let Some(id) = named {
            return self.evaluate_named_acl(id, packet);
        }
        match numbered {
            None => true,
            Some(n) => {
                let name = number_string(n);
                match self.lookup(&name) {
                    Some(id) => self.evaluate_named_acl(id, packet),
                    None => self.evaluate_numbered(n, packet.source),
                }
            },
        }
    }
}


proof fn lemma_named_has_first(named: Seq<AccessListView>, name: Seq<char>, j: int)
    requires
        0 <= j < named.len(),
        named[j].name == name,
    ensures
        exists|i: int| first_named(named, name, i),
    decreases j,
{
    if exists|k: int| 0 <= k < j && (#[trigger] named[k]).name == name {
        let k = choose|k: int| 0 <= k < j && (#[trigger] named[k]).name == name;
        lemma_named_has_first(named, name, k);
    } else {
        assert(first_named(named, name, j));
    }
}

/// Only the first matching rule counts: extra entries placed after a list's last entry leave
/// the entry that decides for a packet, when there is one, where it was.
pub proof fn lemma_first_match_decides(
    entries: Seq<(u32, AclEntry)>,
    later: Seq<(u32, AclEntry)>,
    source: Ipv4Addr,
    destination: Ipv4Addr,
    protocol: IpProtocol,
    payload: Seq<u8>,
)
    requires
        deciding_entry(entries, source, destination, protocol, payload) is Some,
    ensures
        deciding_entry(entries + later, source, destination, protocol, payload) == deciding_entry(
            entries,
            source,
            destination,
            protocol,
            payload,
        ),
{
    let i = choose|i: int| first_hit(entries, source, destination, protocol, payload, i);
    let all = entries + later;
    assert forall|j: int| 0 <= j < i implies entry_verdict(#[trigger] all[j].1, source, destination, protocol, payload) is None by {
        assert(all[j] == entries[j]);
    }
    assert(all[i] == entries[i]);
    assert(first_hit(all, source, destination, protocol, payload, i));
    lemma_first_hit_unique(all, source, destination, protocol, payload, i);
}

/// A packet that no rule of a named list matches is denied, and no counter moves.
pub proof fn lemma_implicit_deny(v: AclTableView, id: AclId, packet: &Ipv4Packet)
    requires
        list_index(v.named, id) is Some,
        deciding_entry(
            v.named[id.0 - 1].entries,
            packet.source,
            packet.destination,
            packet.protocol,
            packet.payload@,
        ) is None,
    ensures
        evaluate_named_spec(v, id, packet) == (v, false),
{
}

/// What a read gives back of a write: after a rule is stored in a list under a sequence,
/// the list holds it there, every other sequence keeps its entry, the sequences stay in
/// order, other lists are untouched, and the rule's counters read zero.
pub proof fn lemma_set_entry_then_read(v: AclTableView, id: AclId, sequence: u32, entry: AclEntry)
    requires
        acl_wf(v),
        set_entry_spec(v, id, Some(sequence), entry).1 is Ok,
    ensures
        ({
            let w = set_entry_spec(v, id, Some(sequence), entry).0;
            let li = id.0 - 1;
            &&& sorted_keys(w.named[li].entries)
            &&& has_key(w.named[li].entries, sequence)
            &&& value_of(w.named[li].entries, sequence) == entry
            &&& forall|k: u32| k != sequence ==> (has_key(w.named[li].entries, k) == has_key(v.named[li].entries, k))
            &&& forall|k: u32| k != sequence && has_key(v.named[li].entries, k) ==> value_of(w.named[li].entries, k)
                == value_of(v.named[li].entries, k)
            &&& forall|j: int| 0 <= j < v.named.len() && j != li ==> w.named[j] == v.named[j]
            &&& count_of(w.matches, (id, sequence)) == 0
            &&& count_of(w.logs, (id, sequence)) == 0
        }),
{
    let li = id.0 - 1;
    lemma_sorted_put_read(v.named[li].entries, sequence, entry);
    lemma_without_unique(v.matches, (id, sequence));
    lemma_without_unique(v.logs, (id, sequence));
}

/// After a sequence is removed from a list, the list no longer holds it, every other
/// sequence keeps its entry, and the sequence's counters read zero.
pub proof fn lemma_remove_entry_forgets(v: AclTableView, id: AclId, sequence: u32)
    requires
        acl_wf(v),
        list_index(v.named, id) is Some,
    ensures
        ({
            let w = remove_entry_spec(v, id, sequence).0;
            let li = id.0 - 1;
            &&& !has_key(w.named[li].entries, sequence)
            &&& forall|k: u32| k != sequence ==> (has_key(w.named[li].entries, k) == has_key(v.named[li].entries, k))
            &&& forall|k: u32| k != sequence && has_key(v.named[li].entries, k) ==> value_of(w.named[li].entries, k)
                == value_of(v.named[li].entries, k)
            &&& count_of(w.matches, (id, sequence)) == 0
            &&& count_of(w.logs, (id, sequence)) == 0
        }),
{
    let li = id.0 - 1;
    lemma_without_read(v.named[li].entries, sequence);
    lemma_without_unique(v.matches, (id, sequence));
    lemma_without_unique(v.logs, (id, sequence));
}

/// Selecting a list is idempotent: selecting the same name and kind again returns the
/// same identifier and changes nothing.
pub proof fn lemma_ensure_acl_idempotent(v: AclTableView, name: Seq<char>, kind: AclKind, supported: bool)
    requires
        acl_wf(v),
        ensure_spec(v, name, kind, supported).1 is Ok,
    ensures
        ensure_spec(ensure_spec(v, name, kind, supported).0, name, kind, supported) == (
            ensure_spec(v, name, kind, supported).0,
            ensure_spec(v, name, kind, supported).1,
        ),
{
    let w = ensure_spec(v, name, kind, supported).0;
    if acl_lookup(v.named, name) is None {
        let last = v.named.len() as int;
        assert(w.named[last].name == name);
        assert forall|j: int| 0 <= j < last implies (#[trigger] w.named[j]).name != name by {
            assert(w.named[j] == v.named[j]);
            if v.named[j].name == name {
                lemma_named_has_first(v.named, name, j);
            }
        }
        assert(first_named(w.named, name, last));
        lemma_first_named_unique(w.named, name, last);
    }
}

/// Taking a numbered list over into a new standard named list of the same number keeps
/// what the list says of every source.
pub proof fn lemma_promotion_keeps_verdicts(v: AclTableView, name: Seq<char>, source: Ipv4Addr)
    requires
        acl_wf(v),
        ensure_spec(v, name, AclKind::Standard, true).1 is Ok,
        acl_lookup(v.named, name) is None,
        all_digits(name),
        digits_value(name) <= 99,
        has_key(v.numbered, list_number(digits_value(name))),
    ensures
        list_permits_spec(ensure_spec(v, name, AclKind::Standard, true).0, list_number(digits_value(name)), source)
            == list_permits_spec(v, list_number(digits_value(name)), source),
{
    let n = list_number(digits_value(name));
    let w = ensure_spec(v, name, AclKind::Standard, true).0;
    assert(n.value() == digits_value(name));
    assert(number_name(n) == name);
    let last = v.named.len() as int;
    assert forall|j: int| 0 <= j < last implies (#[trigger] w.named[j]).name != name by {
        assert(w.named[j] == v.named[j]);
        if v.named[j].name == name {
            lemma_named_has_first(v.named, name, j);
        }
    }
    assert(first_named(w.named, name, last));
    lemma_first_named_unique(w.named, name, last);
    let old_entries = value_of(v.numbered, n);
    let promoted = w.named[last].entries;
    assert(promoted == promote(old_entries));
    let d = Ipv4Addr(0);
    let p = IpProtocol::Other(0);
    let e = Seq::<u8>::empty();
    assert forall|i: int| 0 <= i < old_entries.len() implies #[trigger] entry_verdict(promoted[i].1, source, d, p, e)
        == if wildcard_matches(old_entries[i].source.0, old_entries[i].wildcard.0, source.0) {
        Some(old_entries[i].action)
    } else {
        None
    } by {
        assert(promoted[i].1 == std_rule(old_entries[i]));
        assert(wildcard_matches(0, 0xffff_ffff, 0));
    }
    match deciding_rule(old_entries, source) {
        Some(i) => {
            assert(first_source_hit(old_entries, source, i));
            assert(entry_verdict(promoted[i].1, source, d, p, e) is Some);
            assert(first_hit(promoted, source, d, p, e, i));
            lemma_first_hit_unique(promoted, source, d, p, e, i);
        },
        None => {
            if exists|i: int| first_hit(promoted, source, d, p, e, i) {
                let i = choose|i: int| first_hit(promoted, source, d, p, e, i);
                assert(entry_verdict(promoted[i].1, source, d, p, e) is Some);
                assert forall|j: int| 0 <= j < i implies !wildcard_matches(
                    (#[trigger] old_entries[j]).source.0,
                    old_entries[j].wildcard.0,
                    source.0,
                ) by {
                    assert(entry_verdict(promoted[j].1, source, d, p, e) is None);
                }
                assert(first_source_hit(old_entries, source, i));
            }
        },
    }
}

} // verus!
