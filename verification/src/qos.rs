//! Quality of service: class maps that select traffic by DSCP, IP precedence and access
//! lists, policy maps that give each class its scheduling actions (with the implicit
//! class-default last), their binding to physical interfaces as output policies, and the
//! classification of a frame against a policy.
use crate::device::DeviceError;
use crate::inventory::{device_wf, routing, slot, switching, Device};
use crate::device::InterfaceKind;
use crate::keyed::{has_key, key_index, keys_unique, lemma_key_index, lemma_put_unique, lemma_without_unique, put, sorted_keys, value_of, without};
use crate::routing::InterfaceId;
use crate::text::{str_chars, string_from_chars};
use crate::acl::{acl_lookup, acl_wf, deciding_entry, entry_verdict, first_hit, list_index, list_permits_spec, packet_verdict, AccessListAction, AccessListId, AclTable, AclTableView};
use crate::decimal::{all_digits, digits_value, parse_decimal};
use crate::frame::{be16_at, ethertype_of, EtherType, EthernetFrame};
use crate::ipv4::Ipv4Addr;
use crate::packet::{be32_at, packet_error, protocol_of, IpProtocol, Ipv4Packet};
use vstd::prelude::*;

verus! {

/// The most class maps, and the most policy maps.
pub const QOS_INVENTORY_LIMIT: usize = 256;

/// The most classes in one policy map, and the most access lists one class map names.
pub const QOS_LIST_LIMIT: usize = 64;

/// A class map: its name, whether all of its criteria must match (else any), and the DSCP
/// values, IP precedences and access lists it selects by.
#[derive(Debug, Clone)]
pub struct QosClassMap {
    pub name: String,
    pub match_all: bool,
    pub dscp: Vec<u8>,
    pub precedence: Vec<u8>,
    pub access_lists: Vec<String>,
}

/// A class map as a mathematical value.
pub struct QosClassView {
    pub name: Seq<char>,
    pub match_all: bool,
    pub dscp: Seq<u8>,
    pub precedence: Seq<u8>,
    pub access_lists: Seq<Seq<char>>,
}

impl View for QosClassMap {
    type V = QosClassView;

    open spec fn view(&self) -> QosClassView {
        QosClassView {
            name: self.name@,
            match_all: self.match_all,
            dscp: self.dscp@,
            precedence: self.precedence@,
            access_lists: self.access_lists@.map_values(|s: String| s@),
        }
    }
}

/// A rate: bits per second and an optional burst in bytes.
#[derive(Debug, Clone, Copy, PartialEq, Eq)]
pub struct QosRate {
    pub bits_per_second: u64,
    pub burst_bytes: Option<u32>,
}

/// The actions of one class in a policy map: the class (none for class-default), and its
/// bandwidth guarantee in kilobits per second, priority rate, policing rate and shaping rate.
#[derive(Debug, Clone, Copy, PartialEq, Eq)]
pub struct QosPolicyClass {
    pub class: Option<u32>,
    pub bandwidth_kbps: Option<u64>,
    pub priority: Option<QosRate>,
    pub police: Option<QosRate>,
    pub shape: Option<QosRate>,
}

/// A policy map: its name and its classes, class-default last.
#[derive(Debug, Clone)]
pub struct QosPolicyMap {
    pub name: String,
    pub classes: Vec<QosPolicyClass>,
}

/// A policy map as a mathematical value.
pub struct QosPolicyView {
    pub name: Seq<char>,
    pub classes: Seq<QosPolicyClass>,
}

impl View for QosPolicyMap {
    type V = QosPolicyView;

    open spec fn view(&self) -> QosPolicyView {
        QosPolicyView { name: self.name@, classes: self.classes@ }
    }
}

/// The QoS configuration of a device: class maps and policy maps by identifier, in
/// identifier order, and the output policy of each interface that has one.
#[derive(Debug)]
pub struct QosConfig {
    classes: Vec<(u32, QosClassMap)>,
    policies: Vec<(u32, QosPolicyMap)>,
    bindings: Vec<(InterfaceId, u32)>,
}

/// The QoS configuration as a mathematical value.
pub struct QosView {
    pub classes: Seq<(u32, QosClassView)>,
    pub policies: Seq<(u32, QosPolicyView)>,
    pub bindings: Seq<(InterfaceId, u32)>,
}

/// Class maps as values.
pub open spec fn classes_view(s: Seq<(u32, QosClassMap)>) -> Seq<(u32, QosClassView)> {
    s.map_values(|e: (u32, QosClassMap)| (e.0, e.1@))
}

/// Policy maps as values.
pub open spec fn policies_view(s: Seq<(u32, QosPolicyMap)>) -> Seq<(u32, QosPolicyView)> {
    s.map_values(|e: (u32, QosPolicyMap)| (e.0, e.1@))
}

impl View for QosConfig {
    type V = QosView;

    closed spec fn view(&self) -> QosView {
        QosView {
            classes: classes_view(self.classes@),
            policies: policies_view(self.policies@),
            bindings: self.bindings@,
        }
    }
}

/// Identifiers in increasing order, bindings once per interface.
pub open spec fn qos_wf(v: QosView) -> bool {
    &&& sorted_keys(v.classes)
    &&& sorted_keys(v.policies)
    &&& keys_unique(v.bindings)
}

/// Whether a map or list name is valid: 1 to 64 letters, digits, `_`, `.` or `-`.
pub open spec fn qos_name_ok(s: Seq<char>) -> bool {
    &&& 1 <= s.len() <= 64
    &&& forall|i: int| 0 <= i < s.len() ==> {
        let c = #[trigger] s[i];
        ('a' <= c <= 'z') || ('A' <= c <= 'Z') || ('0' <= c <= '9') || c == '_' || c == '.' || c == '-'
    }
}

/// Whether `s` names the implicit class.
pub open spec fn is_class_default(s: Seq<char>) -> bool {
    s == "class-default"@
}

/// Whether `i` is the first entry named `name`.
pub open spec fn first_name<V>(s: Seq<(u32, V)>, names: spec_fn(V) -> Seq<char>, name: Seq<char>, i: int) -> bool {
    &&& 0 <= i < s.len()
    &&& names(s[i].1) == name
    &&& forall|j: int| 0 <= j < i ==> names(#[trigger] s[j].1) != name
}

/// The name of a class map.
pub open spec fn class_name() -> spec_fn(QosClassView) -> Seq<char> {
    |c: QosClassView| c.name
}

/// The name of a policy map.
pub open spec fn policy_name() -> spec_fn(QosPolicyView) -> Seq<char> {
    |p: QosPolicyView| p.name
}

/// Where the first entry named `name` is.
pub open spec fn named_at<V>(s: Seq<(u32, V)>, names: spec_fn(V) -> Seq<char>, name: Seq<char>) -> Option<int> {
    if exists|i: int| first_name(s, names, name, i) {
        Some(choose|i: int| first_name(s, names, name, i))
    } else {
        None
    }
}

/// The identifier a new entry gets: one past the last, or 1; none when the last is the
/// largest identifier.
pub open spec fn next_id<V>(s: Seq<(u32, V)>) -> Option<u32> {
    if s.len() == 0 {
        Some(1)
    } else if s.last().0 == u32::MAX {
        None
    } else {
        Some((s.last().0 + 1) as u32)
    }
}

/// The configuration and result after creating or selecting class map `name` with match
/// mode `match_all`, on a device that routes or switches (`supported`): an existing class map
/// takes the match mode and keeps its criteria.
pub open spec fn ensure_class_spec(v: QosView, name: Seq<char>, match_all: bool, supported: bool) -> (QosView, Result<u32, DeviceError>) {
    if !supported || !qos_name_ok(name) || is_class_default(name) {
        (v, Err(DeviceError::InvalidQosConfig))
    } else {
        match named_at(v.classes, class_name(), name) {
            Some(i) => (
                QosView { classes: v.classes.update(i, (v.classes[i].0, QosClassView { match_all, ..v.classes[i].1 })), ..v },
                Ok(v.classes[i].0),
            ),
            None => if v.classes.len() >= QOS_INVENTORY_LIMIT {
                (v, Err(DeviceError::InvalidQosConfig))
            } else {
                match next_id(v.classes) {
                    None => (v, Err(DeviceError::InvalidQosConfig)),
                    Some(id) => (
                        QosView {
                            classes: v.classes.push(
                                (id, QosClassView { name, match_all, dscp: Seq::empty(), precedence: Seq::empty(), access_lists: Seq::empty() }),
                            ),
                            ..v
                        },
                        Ok(id),
                    ),
                }
            },
        }
    }
}

/// Whether class criteria are valid: DSCP values to 63, precedences to 7, at most 64 access
/// lists, each validly named.
pub open spec fn criteria_ok(c: QosClassView) -> bool {
    &&& forall|i: int| 0 <= i < c.dscp.len() ==> #[trigger] c.dscp[i] <= 63
    &&& forall|i: int| 0 <= i < c.precedence.len() ==> #[trigger] c.precedence[i] <= 7
    &&& c.access_lists.len() <= QOS_LIST_LIMIT
    &&& forall|i: int| 0 <= i < c.access_lists.len() ==> qos_name_ok(#[trigger] c.access_lists[i])
}

/// The configuration and result after replacing the criteria of class map `id` with `c`:
/// the criteria must be valid, the class map must exist and keep its name.
pub open spec fn set_class_spec(v: QosView, id: u32, c: QosClassView) -> (QosView, Result<(), DeviceError>) {
    if !criteria_ok(c) || !has_key(v.classes, id) || value_of(v.classes, id).name != c.name {
        (v, Err(DeviceError::InvalidQosConfig))
    } else {
        (QosView { classes: put(v.classes, id, c), ..v }, Ok(()))
    }
}

/// Whether some policy map has a class entry for class map `id`.
pub open spec fn class_in_use(v: QosView, id: u32) -> bool {
    exists|p: int, k: int|
        0 <= p < v.policies.len() && 0 <= k < v.policies[p].1.classes.len() && #[trigger] v.policies[p].1.classes[k].class == Some(id)
}

/// The configuration and result after removing class map `name`: nothing to do when there is
/// none; one that a policy map uses stays.
pub open spec fn remove_class_spec(v: QosView, name: Seq<char>) -> (QosView, Result<(), DeviceError>) {
    match named_at(v.classes, class_name(), name) {
        None => (v, Ok(())),
        Some(i) => if class_in_use(v, v.classes[i].0) {
            (v, Err(DeviceError::InvalidQosConfig))
        } else {
            (QosView { classes: v.classes.remove(i), ..v }, Ok(()))
        },
    }
}


/// A policy class entry with no actions.
pub open spec fn default_entry(class: Option<u32>) -> QosPolicyClass {
    QosPolicyClass { class, bandwidth_kbps: None, priority: None, police: None, shape: None }
}

/// The configuration and result after creating or selecting policy map `name` on a device
/// that routes or switches (`supported`): a new one holds only class-default.
pub open spec fn ensure_policy_spec(v: QosView, name: Seq<char>, supported: bool) -> (QosView, Result<u32, DeviceError>) {
    if !supported || !qos_name_ok(name) {
        (v, Err(DeviceError::InvalidQosConfig))
    } else {
        match named_at(v.policies, policy_name(), name) {
            Some(i) => (v, Ok(v.policies[i].0)),
            None => if v.policies.len() >= QOS_INVENTORY_LIMIT {
                (v, Err(DeviceError::InvalidQosConfig))
            } else {
                match next_id(v.policies) {
                    None => (v, Err(DeviceError::InvalidQosConfig)),
                    Some(id) => (
                        QosView { policies: v.policies.push((id, QosPolicyView { name, classes: seq![default_entry(None)] })), ..v },
                        Ok(id),
                    ),
                }
            },
        }
    }
}

/// The class a name refers to in a policy map: none for class-default, else the class map so
/// named; nothing when there is no such class map.
pub open spec fn class_ref(v: QosView, name: Seq<char>) -> Option<Option<u32>> {
    if is_class_default(name) {
        Some(None)
    } else {
        match named_at(v.classes, class_name(), name) {
            Some(i) => Some(Some(v.classes[i].0)),
            None => None,
        }
    }
}

/// Whether some entry of `classes` is for class `c`.
pub open spec fn lists_class(classes: Seq<QosPolicyClass>, c: Option<u32>) -> bool {
    exists|k: int| 0 <= k < classes.len() && (#[trigger] classes[k]).class == c
}

/// The configuration and result after selecting or adding class `name` in policy map
/// `policy`: a new entry, with no actions, goes before the last (class-default), while the
/// policy map holds fewer than 64 classes.
pub open spec fn ensure_policy_class_spec(v: QosView, policy: u32, name: Seq<char>) -> (QosView, Result<Option<u32>, DeviceError>) {
    match class_ref(v, name) {
        None => (v, Err(DeviceError::InvalidQosConfig)),
        Some(c) => if !has_key(v.policies, policy) {
            (v, Err(DeviceError::InvalidQosConfig))
        } else {
            let p = value_of(v.policies, policy);
            if lists_class(p.classes, c) {
                (v, Ok(c))
            } else if p.classes.len() >= QOS_LIST_LIMIT {
                (v, Err(DeviceError::InvalidQosConfig))
            } else {
                let at = if p.classes.len() == 0 { 0 } else { p.classes.len() - 1 };
                (QosView { policies: put(v.policies, policy, QosPolicyView { classes: p.classes.insert(at, default_entry(c)), ..p }), ..v }, Ok(c))
            }
        },
    }
}

/// Whether a rate is usable: a positive number of bits per second.
pub open spec fn rate_ok(r: QosRate) -> bool {
    r.bits_per_second > 0
}

/// Whether class actions are valid: a bandwidth from 1 to 1000000000 kbps, not both a
/// bandwidth and a priority, a priority in whole kilobits per second, and usable rates.
pub open spec fn actions_ok(c: QosPolicyClass) -> bool {
    &&& (c.bandwidth_kbps matches Some(k) ==> 1 <= k <= 1_000_000_000)
    &&& !(c.bandwidth_kbps is Some && c.priority is Some)
    &&& (c.priority matches Some(r) ==> r.bits_per_second % 1000 == 0 && rate_ok(r))
    &&& (c.police matches Some(r) ==> rate_ok(r))
    &&& (c.shape matches Some(r) ==> rate_ok(r))
}

/// Whether entry `k` is the first for class `c`.
pub open spec fn first_entry(classes: Seq<QosPolicyClass>, c: Option<u32>, k: int) -> bool {
    &&& 0 <= k < classes.len()
    &&& classes[k].class == c
    &&& forall|j: int| 0 <= j < k ==> (#[trigger] classes[j]).class != c
}

/// The configuration and result after replacing the actions of the entry for `c.class` in
/// policy map `id` with `c`, which must be valid.
pub open spec fn set_policy_class_spec(v: QosView, id: u32, c: QosPolicyClass) -> (QosView, Result<(), DeviceError>) {
    if !actions_ok(c) || !has_key(v.policies, id) || !lists_class(value_of(v.policies, id).classes, c.class) {
        (v, Err(DeviceError::InvalidQosConfig))
    } else {
        let p = value_of(v.policies, id);
        let k = choose|k: int| first_entry(p.classes, c.class, k);
        (QosView { policies: put(v.policies, id, QosPolicyView { classes: p.classes.update(k, c), ..p }), ..v }, Ok(()))
    }
}

/// The configuration and result after removing class `name` from policy map `id`:
/// class-default only loses its actions; another class's entries go.
pub open spec fn remove_policy_class_spec(v: QosView, id: u32, name: Seq<char>) -> (QosView, Result<(), DeviceError>) {
    match class_ref(v, name) {
        None => (v, Err(DeviceError::InvalidQosConfig)),
        Some(c) => if !has_key(v.policies, id) {
            (v, Err(DeviceError::InvalidQosConfig))
        } else {
            let p = value_of(v.policies, id);
            let classes = match c {
                None => if lists_class(p.classes, None) {
                    p.classes.update(choose|k: int| first_entry(p.classes, None, k), default_entry(None))
                } else {
                    p.classes
                },
                Some(_) => p.classes.filter(|e: QosPolicyClass| e.class != c),
            };
            (QosView { policies: put(v.policies, id, QosPolicyView { classes, ..p }), ..v }, Ok(()))
        },
    }
}

/// Whether some interface has policy map `id` as its output policy.
pub open spec fn policy_bound(v: QosView, id: u32) -> bool {
    exists|i: int| 0 <= i < v.bindings.len() && (#[trigger] v.bindings[i]).1 == id
}

/// The configuration and result after removing policy map `name`: nothing to do when there
/// is none; one an interface uses stays.
pub open spec fn remove_policy_spec(v: QosView, name: Seq<char>) -> (QosView, Result<(), DeviceError>) {
    match named_at(v.policies, policy_name(), name) {
        None => (v, Ok(())),
        Some(i) => if policy_bound(v, v.policies[i].0) {
            (v, Err(DeviceError::InvalidQosConfig))
        } else {
            (QosView { policies: v.policies.remove(i), ..v }, Ok(()))
        },
    }
}

/// The configuration and result after giving interface `interface` output policy `policy`
/// (none to remove it): only a physical Ethernet interface of the device takes one, and only
/// a policy map that exists.
pub open spec fn service_policy_spec(
    v: QosView,
    d: crate::inventory::DeviceView,
    interface: InterfaceId,
    policy: Option<u32>,
) -> (QosView, Result<(), DeviceError>) {
    let ethernet = match slot(d, interface) {
        Some(i) => d.interfaces[i].0.kind == InterfaceKind::GigabitEthernet || d.interfaces[i].0.kind == InterfaceKind::TenGigabitEthernet,
        None => false,
    };
    if !ethernet || (policy matches Some(id) && !has_key(v.policies, id)) {
        (v, Err(DeviceError::InvalidQosConfig))
    } else {
        (
            QosView {
                bindings: match policy {
                    Some(id) => put(v.bindings, interface, id),
                    None => without(v.bindings, interface),
                },
                ..v
            },
            Ok(()),
        )
    }
}


/// The EtherType and payload a frame carries, looking inside one 802.1Q tag.
pub open spec fn frame_inner(f: EthernetFrame) -> (EtherType, Seq<u8>) {
    if f.ethertype == EtherType::Dot1Q && f.payload@.len() >= 4 {
        (ethertype_of(be16_at(f.payload@, 2)), f.payload@.skip(4))
    } else {
        (f.ethertype, f.payload@)
    }
}

/// Whether the frame carries an IPv4 packet that decodes.
pub open spec fn carries_ipv4(f: EthernetFrame) -> bool {
    frame_inner(f).0 == EtherType::Ipv4 && packet_error(frame_inner(f).1) is None
}

/// The DS field of the frame's packet: the IPv4 type of service, or the IPv6 traffic class.
pub open spec fn ds_field(f: EthernetFrame) -> Option<u8> {
    let (kind, b) = frame_inner(f);
    if carries_ipv4(f) {
        Some(b[1])
    } else if kind == EtherType::Ipv6 && b.len() >= 40 && b[0] >> 4u8 == 6 {
        Some(((b[0] << 4u8) | (b[1] >> 4u8)) as u8)
    } else {
        None
    }
}

/// Whether access list `name` permits the IPv4 packet `b`: the named list so called decides
/// by its first matching rule; else a standard list of that number decides by source.
pub open spec fn acl_permits_spec(a: AclTableView, name: Seq<char>, b: Seq<u8>) -> bool {
    let source = Ipv4Addr(be32_at(b, 12));
    let destination = Ipv4Addr(be32_at(b, 16));
    let protocol = protocol_of(b[9]);
    let payload = b.subrange(20, be16_at(b, 2) as int);
    match acl_lookup(a.named, name) {
        Some(id) => {
            let entries = a.named[id.0 - 1].entries;
            match deciding_entry(entries, source, destination, protocol, payload) {
                Some(i) => entry_verdict(entries[i].1, source, destination, protocol, payload) == Some(AccessListAction::Permit),
                None => false,
            }
        },
        None => name.len() > 0 && all_digits(name) && 1 <= digits_value(name) <= 99
            && list_permits_spec(a, AccessListId::numbered(digits_value(name) as u8), source),
    }
}

/// One criterion of a class map: none when it selects by nothing, else whether it holds.
pub open spec fn criterion(empty: bool, holds: bool) -> Option<bool> {
    if empty {
        None
    } else {
        Some(holds)
    }
}

/// Whether class map `c` selects the frame: its criteria that select by something must all
/// hold (match-all) or one must (match-any); a class map selecting by nothing selects nothing.
pub open spec fn class_selects(a: AclTableView, c: QosClassView, f: EthernetFrame) -> bool {
    let b = frame_inner(f).1;
    let dscp = criterion(c.dscp.len() == 0, ds_field(f) matches Some(d) && c.dscp.contains(d >> 2u8));
    let prec = criterion(c.precedence.len() == 0, carries_ipv4(f) && c.precedence.contains(b[1] >> 5u8));
    let acls = criterion(
        c.access_lists.len() == 0,
        carries_ipv4(f) && exists|j: int| 0 <= j < c.access_lists.len() && acl_permits_spec(a, #[trigger] c.access_lists[j], b),
    );
    if dscp is None && prec is None && acls is None {
        false
    } else if c.match_all {
        dscp != Some(false) && prec != Some(false) && acls != Some(false)
    } else {
        dscp == Some(true) || prec == Some(true) || acls == Some(true)
    }
}

/// Whether policy entry `e` takes the frame: class-default takes every frame; another class
/// takes it when its class map exists and selects it.
pub open spec fn entry_takes(v: QosView, a: AclTableView, e: QosPolicyClass, f: EthernetFrame) -> bool {
    match e.class {
        None => true,
        Some(id) => has_key(v.classes, id) && class_selects(a, value_of(v.classes, id), f),
    }
}

/// Whether entry `k` is the first of `classes` that takes the frame.
pub open spec fn first_taker(v: QosView, a: AclTableView, classes: Seq<QosPolicyClass>, f: EthernetFrame, k: int) -> bool {
    &&& 0 <= k < classes.len()
    &&& entry_takes(v, a, classes[k], f)
    &&& forall|j: int| 0 <= j < k ==> !entry_takes(v, a, #[trigger] classes[j], f)
}

/// The class of policy map `policy` that a frame falls in: the first entry that takes it;
/// none when the policy map does not exist or no entry takes it.
pub open spec fn classify_spec(v: QosView, a: AclTableView, policy: u32, f: EthernetFrame) -> Option<int> {
    if has_key(v.policies, policy) && exists|k: int| first_taker(v, a, value_of(v.policies, policy).classes, f, k) {
        Some(choose|k: int| first_taker(v, a, value_of(v.policies, policy).classes, f, k))
    } else {
        None
    }
}

/// A class map that selects by DSCP alone selects a frame carrying an IPv6 packet exactly
/// when its DSCP list holds the packet's DSCP: the upper six bits of the traffic class, which
/// is the low four bits of the packet's first byte followed by the high four bits of its
/// second.
pub proof fn lemma_ipv6_dscp(a: AclTableView, c: QosClassView, f: EthernetFrame)
    requires
        frame_inner(f).0 == EtherType::Ipv6,
        frame_inner(f).1.len() >= 40,
        frame_inner(f).1[0] / 16 == 6,
        c.dscp.len() > 0,
        c.precedence.len() == 0,
        c.access_lists.len() == 0,
    ensures
        ({
            let b = frame_inner(f).1;
            class_selects(a, c, f) <==> c.dscp.contains((((b[0] % 16) * 16 + b[1] / 16) / 4) as u8)
        }),
{
    let b = frame_inner(f).1;
    let x = b[0];
    let y = b[1];
    assert(x >> 4u8 == 6 && ((((x << 4u8) | (y >> 4u8)) as u8) >> 2u8) == (((x % 16) * 16 + y / 16) / 4) as u8)
        by (bit_vector)
        requires
            x / 16 == 6,
    ;
    assert(!carries_ipv4(f));
    assert(ds_field(f) == Some(((x << 4u8) | (y >> 4u8)) as u8));
}

/// For a frame carrying an IPv4 packet that decodes, the type-of-service byte (the packet's
/// second byte) decides: a class map selecting by DSCP alone selects the frame exactly when
/// its list holds the upper six bits of that byte, and one selecting by precedence alone
/// exactly when its list holds the upper three.
pub proof fn lemma_ipv4_dscp_and_precedence(a: AclTableView, c: QosClassView, f: EthernetFrame)
    requires
        carries_ipv4(f),
        c.access_lists.len() == 0,
    ensures
        ({
            let tos = frame_inner(f).1[1];
            &&& (c.dscp.len() > 0 && c.precedence.len() == 0 ==> (class_selects(a, c, f) <==> c.dscp.contains(
                (tos / 4) as u8,
            )))
            &&& (c.dscp.len() == 0 && c.precedence.len() > 0 ==> (class_selects(a, c, f) <==> c.precedence.contains(
                (tos / 32) as u8,
            )))
        }),
{
    let tos = frame_inner(f).1[1];
    assert(tos >> 2u8 == (tos / 4) as u8 && tos >> 5u8 == (tos / 32) as u8) by (bit_vector);
}

/// A frame falls in the first class of the policy map that takes it: that class takes it and
/// no earlier one does. A policy map that holds class-default always places the frame, and
/// one that does not exist places none.
pub proof fn lemma_classify_first_taker(v: QosView, a: AclTableView, policy: u32, f: EthernetFrame)
    ensures
        !has_key(v.policies, policy) ==> classify_spec(v, a, policy, f) is None,
        classify_spec(v, a, policy, f) matches Some(k) ==> {
            let classes = value_of(v.policies, policy).classes;
            &&& 0 <= k < classes.len()
            &&& entry_takes(v, a, classes[k], f)
            &&& forall|j: int| 0 <= j < k ==> !entry_takes(v, a, #[trigger] classes[j], f)
        },
        has_key(v.policies, policy) && (exists|j: int|
            0 <= j < value_of(v.policies, policy).classes.len() && (#[trigger] value_of(v.policies, policy).classes[j]).class
                is None) ==> classify_spec(v, a, policy, f) is Some,
{
    if has_key(v.policies, policy) {
        let classes = value_of(v.policies, policy).classes;
        if exists|j: int| 0 <= j < classes.len() && (#[trigger] classes[j]).class is None {
            let j = choose|j: int| 0 <= j < classes.len() && (#[trigger] classes[j]).class is None;
            lemma_some_first_taker(v, a, classes, f, j);
        }
    }
}

proof fn lemma_some_first_taker(v: QosView, a: AclTableView, classes: Seq<QosPolicyClass>, f: EthernetFrame, j: int)
    requires
        0 <= j < classes.len(),
        entry_takes(v, a, classes[j], f),
    ensures
        exists|k: int| first_taker(v, a, classes, f, k),
    decreases j,
{
    if forall|i: int| 0 <= i < j ==> !entry_takes(v, a, #[trigger] classes[i], f) {
        assert(first_taker(v, a, classes, f, j));
    } else {
        let i = choose|i: int| 0 <= i < j && entry_takes(v, a, #[trigger] classes[i], f);
        lemma_some_first_taker(v, a, classes, f, i);
    }
}

/// Whether `name` is `class-default`.
fn names_class_default(name: &Vec<char>) -> (r: bool)
    ensures
        r == is_class_default(name@),
{
    proof {
        reveal_strlit("class-default");
    }
    let target: [char; 13] = ['c', 'l', 'a', 's', 's', '-', 'd', 'e', 'f', 'a', 'u', 'l', 't'];
    assert(target@ =~= "class-default"@);
    if name.len() != 13 {
        return false;
    }
    let mut i: usize = 0;
    while i < 13
        invariant
            i <= 13,
            name@.len() == 13,
            target@ == "class-default"@,
            forall|j: int| 0 <= j < i ==> name@[j] == target@[j],
        decreases 13 - i,
    {
        if name[i] != target[i] {
            return false;
        }
        i = i + 1;
    }
    assert(name@ =~= target@);
    true
}

/// Whether a name is valid.
fn name_ok(name: &Vec<char>) -> (r: bool)
    ensures
        r == qos_name_ok(name@),
{
    if name.len() == 0 || name.len() > 64 {
        return false;
    }
    let mut i: usize = 0;
    while i < name.len()
        invariant
            i <= name@.len(),
            1 <= name@.len() <= 64,
            forall|j: int| 0 <= j < i ==> {
                let c = #[trigger] name@[j];
                ('a' <= c <= 'z') || ('A' <= c <= 'Z') || ('0' <= c <= '9') || c == '_' || c == '.' || c == '-'
            },
        decreases name@.len() - i,
    {
        let c = name[i];
        if !(('a' <= c && c <= 'z') || ('A' <= c && c <= 'Z') || ('0' <= c && c <= '9') || c == '_' || c == '.' || c == '-') {
            return false;
        }
        i = i + 1;
    }
    true
}

/// Where the first class map named `name` is.
fn find_class(classes: &Vec<(u32, QosClassMap)>, name: &String) -> (r: Option<usize>)
    ensures
        match r {
            Some(i) => i < classes@.len() && named_at(classes_view(classes@), class_name(), name@) == Some(i as int),
            None => named_at(classes_view(classes@), class_name(), name@) is None,
        },
{
    let ghost s = classes_view(classes@);
    let mut i: usize = 0;
    while i < classes.len()
        invariant
            s == classes_view(classes@),
            i <= classes@.len(),
            forall|j: int| 0 <= j < i ==> class_name()(#[trigger] s[j].1) != name@,
        decreases classes@.len() - i,
    {
        if classes[i].1.name == *name {
            proof {
                assert(first_name(s, class_name(), name@, i as int));
                let k = choose|k: int| first_name(s, class_name(), name@, k);
                if k < i {
                    assert(class_name()(s[k].1) != name@);
                } else if k > i {
                    assert(class_name()(s[i as int].1) != name@);
                }
            }
            return Some(i);
        }
        i = i + 1;
    }
    None
}

/// Whether two optional identifiers are equal.
fn same_class(a: Option<u32>, b: Option<u32>) -> (r: bool)
    ensures
        r == (a == b),
{
    match (a, b) {
        (Some(x), Some(y)) => x == y,
        (None, None) => true,
        _ => false,
    }
}

/// Whether some policy map has a class entry for `id`.
fn policies_use(policies: &Vec<(u32, QosPolicyMap)>, id: Option<u32>) -> (r: bool)
    ensures
        r == exists|p: int, k: int|
            0 <= p < policies@.len() && 0 <= k < policies@[p].1.classes@.len() && #[trigger] policies@[p].1.classes@[k].class == id,
{
    let mut p: usize = 0;
    while p < policies.len()
        invariant
            p <= policies@.len(),
            forall|a: int, k: int|
                0 <= a < p && 0 <= k < policies@[a].1.classes@.len() ==> #[trigger] policies@[a].1.classes@[k].class != id,
        decreases policies@.len() - p,
    {
        let mut k: usize = 0;
        while k < policies[p].1.classes.len()
            invariant
                p < policies@.len(),
                k <= policies@[p as int].1.classes@.len(),
                forall|b: int| 0 <= b < k ==> #[trigger] policies@[p as int].1.classes@[b].class != id,
            decreases policies@[p as int].1.classes@.len() - k,
        {
            if same_class(policies[p].1.classes[k].class, id) {
                return true;
            }
            k = k + 1;
        }
        p = p + 1;
    }
    false
}

/// Where class map `id` is.
fn find_class_id(classes: &Vec<(u32, QosClassMap)>, id: u32) -> (r: Option<usize>)
    requires
        sorted_keys(classes_view(classes@)),
    ensures
        match r {
            Some(i) => i < classes@.len() && has_key(classes_view(classes@), id) && key_index(classes_view(classes@), id) == i,
            None => !has_key(classes_view(classes@), id),
        },
{
    let ghost s = classes_view(classes@);
    proof {
        crate::keyed::lemma_sorted_unique(s);
    }
    let mut i: usize = 0;
    while i < classes.len()
        invariant
            s == classes_view(classes@),
            keys_unique(s),
            i <= s.len(),
            forall|j: int| 0 <= j < i ==> #[trigger] s[j].0 != id,
        decreases s.len() - i,
    {
        assert(s[i as int].0 == classes@[i as int].0);
        if classes[i].0 == id {
            proof {
                lemma_key_index(s, i as int);
            }
            return Some(i);
        }
        i = i + 1;
    }
    None
}

impl QosConfig {
    /// No class maps, policy maps or bindings.
    pub fn new() -> (r: QosConfig)
        ensures
            r@.classes.len() == 0,
            r@.policies.len() == 0,
            r@.bindings.len() == 0,
            qos_wf(r@),
    {
        let r = QosConfig { classes: Vec::new(), policies: Vec::new(), bindings: Vec::new() };
        proof {
            assert(r@.classes =~= Seq::<(u32, QosClassView)>::empty());
            assert(r@.policies =~= Seq::<(u32, QosPolicyView)>::empty());
        }
        r
    }

    /// The class maps, in identifier order.
    pub fn classes(&self) -> (r: &[(u32, QosClassMap)])
        ensures
            classes_view(r@) == self@.classes,
    {
        self.classes.as_slice()
    }

    /// The policy maps, in identifier order.
    pub fn policies(&self) -> (r: &[(u32, QosPolicyMap)])
        ensures
            policies_view(r@) == self@.policies,
    {
        self.policies.as_slice()
    }

    /// The output policy bindings, by interface.
    pub fn bindings(&self) -> (r: &[(InterfaceId, u32)])
        ensures
            r@ == self@.bindings,
    {
        self.bindings.as_slice()
    }

    /// Create or select class map `name`; an existing one takes the match mode `match_all`
    /// and keeps its criteria. The device must route or switch.
    pub fn ensure_qos_class(&mut self, name: &str, match_all: bool, device: &Device) -> (r: Result<u32, DeviceError>)
        requires
            qos_wf(old(self)@),
        ensures
            qos_wf(final(self)@),
            (final(self)@, r) == ensure_class_spec(old(self)@, name@, match_all, (routing(device@.device_type) || switching(device@.device_type))),
    {
        let supported = device.supports_routing() || device.supports_switching();
        let ghost v = self@;
        let chars = str_chars(name);
        if !supported || !name_ok(&chars) || names_class_default(&chars) {
            return Err(DeviceError::InvalidQosConfig);
        }
        let owned = string_from_chars(&chars);
        match find_class(&self.classes, &owned) {
            Some(i) => {
                let mut e = self.classes.remove(i);
                let found = e.0;
                e.1.match_all = match_all;
                self.classes.insert(i, e);
                proof {
                    assert(self@.classes =~= v.classes.update(i as int, (v.classes[i as int].0, QosClassView { match_all, ..v.classes[i as int].1 })));
                    assert(sorted_keys(self@.classes)) by {
                        assert forall|a: int, b: int| 0 <= a < b < self@.classes.len() implies #[trigger] self@.classes[a].0 < #[trigger] self@.classes[b].0 by {
                            assert(self@.classes[a].0 == v.classes[a].0 && self@.classes[b].0 == v.classes[b].0);
                        }
                    }
                }
                Ok(found)
            },
            None => {
                if self.classes.len() >= QOS_INVENTORY_LIMIT {
                    return Err(DeviceError::InvalidQosConfig);
                }
                let n = self.classes.len();
                let id: u32 = if n == 0 {
                    1
                } else {
                    let last = self.classes[n - 1].0;
                    if last == u32::MAX {
                        return Err(DeviceError::InvalidQosConfig);
                    }
                    last + 1
                };
                self.classes.push(
                    (id, QosClassMap { name: owned, match_all, dscp: Vec::new(), precedence: Vec::new(), access_lists: Vec::new() }),
                );
                proof {
                    let e = QosClassView { name: name@, match_all, dscp: Seq::empty(), precedence: Seq::empty(), access_lists: Seq::empty() };
                    assert(self@.classes[n as int].1.access_lists =~= Seq::<Seq<char>>::empty());
                    assert(self@.classes[n as int].1.dscp =~= Seq::<u8>::empty());
                    assert(self@.classes[n as int].1.precedence =~= Seq::<u8>::empty());
                    assert(self@.classes =~= v.classes.push((id, e)));
                    assert(sorted_keys(self@.classes)) by {
                        assert forall|a: int, b: int| 0 <= a < b < self@.classes.len() implies #[trigger] self@.classes[a].0 < #[trigger] self@.classes[b].0 by {
                            if b == n {
                                if a < n - 1 {
                                    assert(v.classes[a].0 < v.classes[n - 1].0);
                                }
                            }
                        }
                    }
                }
                Ok(id)
            },
        }
    }

    /// Replace the criteria of class map `id` with those of `class`, which must be valid and
    /// keep the class map's name.
    pub fn set_qos_class(&mut self, id: u32, class: QosClassMap) -> (r: Result<(), DeviceError>)
        requires
            qos_wf(old(self)@),
        ensures
            qos_wf(final(self)@),
            (final(self)@, r) == set_class_spec(old(self)@, id, class@),
    {
        let ghost v = self@;
        let mut i: usize = 0;
        while i < class.dscp.len()
            invariant
                i <= class.dscp@.len(),
                self@ == v,
                qos_wf(v),
                forall|j: int| 0 <= j < i ==> #[trigger] class.dscp@[j] <= 63,
            decreases class.dscp@.len() - i,
        {
            if class.dscp[i] > 63 {
                assert(class@.dscp[i as int] > 63);
                return Err(DeviceError::InvalidQosConfig);
            }
            i = i + 1;
        }
        let mut i: usize = 0;
        while i < class.precedence.len()
            invariant
                i <= class.precedence@.len(),
                self@ == v,
                qos_wf(v),
                forall|j: int| 0 <= j < i ==> #[trigger] class.precedence@[j] <= 7,
            decreases class.precedence@.len() - i,
        {
            if class.precedence[i] > 7 {
                assert(class@.precedence[i as int] > 7);
                return Err(DeviceError::InvalidQosConfig);
            }
            i = i + 1;
        }
        if class.access_lists.len() > QOS_LIST_LIMIT {
            return Err(DeviceError::InvalidQosConfig);
        }
        let mut i: usize = 0;
        while i < class.access_lists.len()
            invariant
                i <= class.access_lists@.len(),
                self@ == v,
                qos_wf(v),
                forall|j: int| 0 <= j < i ==> qos_name_ok(#[trigger] class@.access_lists[j]),
            decreases class.access_lists@.len() - i,
        {
            let chars = str_chars(class.access_lists[i].as_str());
            if !name_ok(&chars) {
                assert(!qos_name_ok(class@.access_lists[i as int]));
                return Err(DeviceError::InvalidQosConfig);
            }
            i = i + 1;
        }
        let k = match find_class_id(&self.classes, id) {
            None => {
                return Err(DeviceError::InvalidQosConfig);
            },
            Some(k) => k,
        };
        if self.classes[k].1.name != class.name {
            return Err(DeviceError::InvalidQosConfig);
        }
        let ghost cv = class@;
        self.classes.set(k, (id, class));
        proof {
            lemma_key_index(v.classes, k as int);
            assert(self@.classes =~= v.classes.update(k as int, (id, cv)));
            assert(sorted_keys(self@.classes)) by {
                assert forall|a: int, b: int| 0 <= a < b < self@.classes.len() implies #[trigger] self@.classes[a].0 < #[trigger] self@.classes[b].0 by {
                    assert(self@.classes[a].0 == v.classes[a].0 && self@.classes[b].0 == v.classes[b].0);
                }
            }
        }
        Ok(())
    }

    /// Remove class map `name` when no policy map uses it; nothing to do when there is none.
    pub fn remove_qos_class(&mut self, name: &str) -> (r: Result<(), DeviceError>)
        requires
            qos_wf(old(self)@),
        ensures
            qos_wf(final(self)@),
            (final(self)@, r) == remove_class_spec(old(self)@, name@),
    {
        let ghost v = self@;
        let owned = string_from_chars(&str_chars(name));
        let i = match find_class(&self.classes, &owned) {
            None => {
                return Ok(());
            },
            Some(i) => i,
        };
        let id = self.classes[i].0;
        if policies_use(&self.policies, Some(id)) {
            proof {
                let (p, k) = choose|p: int, k: int|
                    0 <= p < self.policies@.len() && 0 <= k < self.policies@[p].1.classes@.len()
                        && #[trigger] self.policies@[p].1.classes@[k].class == Some(id);
                assert(v.policies[p].1.classes[k].class == Some(id));
            }
            return Err(DeviceError::InvalidQosConfig);
        }
        proof {
            assert(!class_in_use(v, id)) by {
                if class_in_use(v, id) {
                    let (p, k) = choose|p: int, k: int|
                        0 <= p < v.policies.len() && 0 <= k < v.policies[p].1.classes.len() && #[trigger] v.policies[p].1.classes[k].class == Some(id);
                    assert(self.policies@[p].1.classes@[k].class == Some(id));
                }
            }
        }
        let _gone = self.classes.remove(i);
        proof {
            assert(self@.classes =~= v.classes.remove(i as int));
            crate::keyed::lemma_remove_sorted(v.classes, i as int);
        }
        Ok(())
    }
}

/// Where the first policy map named `name` is.
fn find_policy(policies: &Vec<(u32, QosPolicyMap)>, name: &String) -> (r: Option<usize>)
    ensures
        match r {
            Some(i) => i < policies@.len() && named_at(policies_view(policies@), policy_name(), name@) == Some(i as int),
            None => named_at(policies_view(policies@), policy_name(), name@) is None,
        },
{
    let ghost s = policies_view(policies@);
    let mut i: usize = 0;
    while i < policies.len()
        invariant
            s == policies_view(policies@),
            i <= policies@.len(),
            forall|j: int| 0 <= j < i ==> policy_name()(#[trigger] s[j].1) != name@,
        decreases policies@.len() - i,
    {
        if policies[i].1.name == *name {
            proof {
                assert(first_name(s, policy_name(), name@, i as int));
                let k = choose|k: int| first_name(s, policy_name(), name@, k);
                if k < i {
                    assert(policy_name()(s[k].1) != name@);
                } else if k > i {
                    assert(policy_name()(s[i as int].1) != name@);
                }
            }
            return Some(i);
        }
        i = i + 1;
    }
    None
}

/// Where policy map `id` is.
fn find_policy_id(policies: &Vec<(u32, QosPolicyMap)>, id: u32) -> (r: Option<usize>)
    requires
        sorted_keys(policies_view(policies@)),
    ensures
        match r {
            Some(i) => i < policies@.len() && has_key(policies_view(policies@), id) && key_index(policies_view(policies@), id) == i,
            None => !has_key(policies_view(policies@), id),
        },
{
    let ghost s = policies_view(policies@);
    proof {
        crate::keyed::lemma_sorted_unique(s);
    }
    let mut i: usize = 0;
    while i < policies.len()
        invariant
            s == policies_view(policies@),
            keys_unique(s),
            i <= s.len(),
            forall|j: int| 0 <= j < i ==> #[trigger] s[j].0 != id,
        decreases s.len() - i,
    {
        assert(s[i as int].0 == policies@[i as int].0);
        if policies[i].0 == id {
            proof {
                lemma_key_index(s, i as int);
            }
            return Some(i);
        }
        i = i + 1;
    }
    None
}

/// Where the first entry for class `c` is.
fn find_entry(classes: &Vec<QosPolicyClass>, c: Option<u32>) -> (r: Option<usize>)
    ensures
        match r {
            Some(k) => first_entry(classes@, c, k as int) && (choose|j: int| first_entry(classes@, c, j)) == k,
            None => !lists_class(classes@, c),
        },
{
    let mut k: usize = 0;
    while k < classes.len()
        invariant
            k <= classes@.len(),
            forall|j: int| 0 <= j < k ==> (#[trigger] classes@[j]).class != c,
        decreases classes@.len() - k,
    {
        if same_class(classes[k].class, c) {
            proof {
                assert(first_entry(classes@, c, k as int));
                let j = choose|j: int| first_entry(classes@, c, j);
                if j < k {
                    assert(classes@[j].class != c);
                } else if j > k {
                    assert(classes@[k as int].class != c);
                }
            }
            return Some(k);
        }
        k = k + 1;
    }
    None
}

/// Whether a rate is usable.
fn rate_usable(r: Option<QosRate>) -> (b: bool)
    ensures
        b == (r matches Some(x) ==> rate_ok(x)),
{
    match r {
        Some(x) => x.bits_per_second > 0,
        None => true,
    }
}

/// Whether class actions are valid.
fn actions_valid(c: &QosPolicyClass) -> (r: bool)
    ensures
        r == actions_ok(*c),
{
    let bandwidth = match c.bandwidth_kbps {
        Some(k) => 1 <= k && k <= 1_000_000_000,
        None => true,
    };
    let exclusive = !(c.bandwidth_kbps.is_some() && c.priority.is_some());
    let priority = match c.priority {
        Some(r) => r.bits_per_second % 1000 == 0 && r.bits_per_second > 0,
        None => true,
    };
    bandwidth && exclusive && priority && rate_usable(c.police) && rate_usable(c.shape)
}

/// Where the binding of `k` is.
fn find_binding(s: &Vec<(InterfaceId, u32)>, k: InterfaceId) -> (r: Option<usize>)
    requires
        keys_unique(s@),
    ensures
        match r {
            Some(i) => i < s@.len() && has_key(s@, k) && key_index(s@, k) == i,
            None => !has_key(s@, k),
        },
{
    let mut i: usize = 0;
    while i < s.len()
        invariant
            keys_unique(s@),
            i <= s@.len(),
            forall|j: int| 0 <= j < i ==> #[trigger] s@[j].0 != k,
        decreases s@.len() - i,
    {
        if s[i].0.0 == k.0 {
            proof {
                lemma_key_index(s@, i as int);
            }
            return Some(i);
        }
        i = i + 1;
    }
    None
}

impl QosConfig {
    /// The class a name refers to in a policy map.
    fn class_reference(&self, name: &str) -> (r: Option<Option<u32>>)
        ensures
            r == class_ref(self@, name@),
    {
        let chars = str_chars(name);
        if names_class_default(&chars) {
            return Some(None);
        }
        let owned = string_from_chars(&chars);
        match find_class(&self.classes, &owned) {
            Some(i) => Some(Some(self.classes[i].0)),
            None => None,
        }
    }

    /// Replace policy map `k` (at identifier `id`) with `p`.
    fn replace_policy(&mut self, k: usize, id: u32, p: QosPolicyMap)
        requires
            qos_wf(old(self)@),
            k < old(self)@.policies.len(),
            old(self)@.policies[k as int].0 == id,
        ensures
            qos_wf(final(self)@),
            final(self)@ == (QosView { policies: put(old(self)@.policies, id, p@), ..old(self)@ }),
    {
        let ghost v = self@;
        let ghost pv = p@;
        proof {
            crate::keyed::lemma_sorted_unique(v.policies);
            lemma_key_index(v.policies, k as int);
        }
        self.policies.set(k, (id, p));
        proof {
            assert(self@.policies =~= v.policies.update(k as int, (id, pv)));
            assert(sorted_keys(self@.policies)) by {
                assert forall|a: int, b: int| 0 <= a < b < self@.policies.len() implies #[trigger] self@.policies[a].0 < #[trigger] self@.policies[b].0 by {
                    assert(self@.policies[a].0 == v.policies[a].0 && self@.policies[b].0 == v.policies[b].0);
                }
            }
        }
    }

    /// Create or select policy map `name`; a new one holds only class-default.
    /// The device must route or switch.
    pub fn ensure_qos_policy(&mut self, name: &str, device: &Device) -> (r: Result<u32, DeviceError>)
        requires
            qos_wf(old(self)@),
        ensures
            qos_wf(final(self)@),
            (final(self)@, r) == ensure_policy_spec(old(self)@, name@, (routing(device@.device_type) || switching(device@.device_type))),
    {
        let supported = device.supports_routing() || device.supports_switching();
        let ghost v = self@;
        let chars = str_chars(name);
        if !supported || !name_ok(&chars) {
            return Err(DeviceError::InvalidQosConfig);
        }
        let owned = string_from_chars(&chars);
        if let Some(i) = find_policy(&self.policies, &owned) {
            return Ok(self.policies[i].0);
        }
        if self.policies.len() >= QOS_INVENTORY_LIMIT {
            return Err(DeviceError::InvalidQosConfig);
        }
        let n = self.policies.len();
        let id: u32 = if n == 0 {
            1
        } else {
            let last = self.policies[n - 1].0;
            if last == u32::MAX {
                return Err(DeviceError::InvalidQosConfig);
            }
            last + 1
        };
        let mut classes: Vec<QosPolicyClass> = Vec::new();
        classes.push(QosPolicyClass { class: None, bandwidth_kbps: None, priority: None, police: None, shape: None });
        self.policies.push((id, QosPolicyMap { name: owned, classes }));
        proof {
            assert(self@.policies[n as int].1.classes =~= seq![default_entry(None)]);
            assert(self@.policies =~= v.policies.push((id, QosPolicyView { name: name@, classes: seq![default_entry(None)] })));
            assert(sorted_keys(self@.policies)) by {
                assert forall|a: int, b: int| 0 <= a < b < self@.policies.len() implies #[trigger] self@.policies[a].0 < #[trigger] self@.policies[b].0 by {
                    if b == n && a < n - 1 {
                        assert(v.policies[a].0 < v.policies[n - 1].0);
                    }
                }
            }
        }
        Ok(id)
    }

    /// Select or add class `name` (`class-default` for the implicit class) in policy map
    /// `policy`; a new entry has no actions and goes before class-default. Returns the class.
    pub fn ensure_qos_policy_class(&mut self, policy: u32, name: &str) -> (r: Result<Option<u32>, DeviceError>)
        requires
            qos_wf(old(self)@),
        ensures
            qos_wf(final(self)@),
            (final(self)@, r) == ensure_policy_class_spec(old(self)@, policy, name@),
    {
        let ghost v = self@;
        let c = match self.class_reference(name) {
            None => {
                return Err(DeviceError::InvalidQosConfig);
            },
            Some(c) => c,
        };
        let k = match find_policy_id(&self.policies, policy) {
            None => {
                return Err(DeviceError::InvalidQosConfig);
            },
            Some(k) => k,
        };
        proof {
            crate::keyed::lemma_sorted_unique(v.policies);
            lemma_key_index(v.policies, k as int);
        }
        if find_entry(&self.policies[k].1.classes, c).is_some() {
            return Ok(c);
        }
        let len = self.policies[k].1.classes.len();
        if len >= QOS_LIST_LIMIT {
            return Err(DeviceError::InvalidQosConfig);
        }
        let mut p = self.policies.remove(k);
        let at = if len == 0 { 0 } else { len - 1 };
        p.1.classes.insert(at, QosPolicyClass { class: c, bandwidth_kbps: None, priority: None, police: None, shape: None });
        let ghost pv = p.1@;
        self.policies.insert(k, p);
        proof {
            assert(self@.policies =~= v.policies.update(k as int, (policy, pv)));
            assert(pv == QosPolicyView { classes: v.policies[k as int].1.classes.insert(at as int, default_entry(c)), ..v.policies[k as int].1 });
            assert(sorted_keys(self@.policies)) by {
                assert forall|a: int, b: int| 0 <= a < b < self@.policies.len() implies #[trigger] self@.policies[a].0 < #[trigger] self@.policies[b].0 by {
                    assert(self@.policies[a].0 == v.policies[a].0 && self@.policies[b].0 == v.policies[b].0);
                }
            }
        }
        Ok(c)
    }

    /// Replace the actions of the entry for `class.class` in policy map `id` with `class`,
    /// which must be valid.
    pub fn set_qos_policy_class(&mut self, id: u32, class: QosPolicyClass) -> (r: Result<(), DeviceError>)
        requires
            qos_wf(old(self)@),
        ensures
            qos_wf(final(self)@),
            (final(self)@, r) == set_policy_class_spec(old(self)@, id, class),
    {
        let ghost v = self@;
        if !actions_valid(&class) {
            return Err(DeviceError::InvalidQosConfig);
        }
        let k = match find_policy_id(&self.policies, id) {
            None => {
                return Err(DeviceError::InvalidQosConfig);
            },
            Some(k) => k,
        };
        proof {
            crate::keyed::lemma_sorted_unique(v.policies);
            lemma_key_index(v.policies, k as int);
        }
        let e = match find_entry(&self.policies[k].1.classes, class.class) {
            None => {
                return Err(DeviceError::InvalidQosConfig);
            },
            Some(e) => e,
        };
        let mut p = self.policies.remove(k);
        p.1.classes.set(e, class);
        let ghost pv = p.1@;
        self.policies.insert(k, p);
        proof {
            assert(self@.policies =~= v.policies.update(k as int, (id, pv)));
            assert(sorted_keys(self@.policies)) by {
                assert forall|a: int, b: int| 0 <= a < b < self@.policies.len() implies #[trigger] self@.policies[a].0 < #[trigger] self@.policies[b].0 by {
                    assert(self@.policies[a].0 == v.policies[a].0 && self@.policies[b].0 == v.policies[b].0);
                }
            }
        }
        Ok(())
    }

    /// Remove class `name` from policy map `id`; class-default only loses its actions.
    pub fn remove_qos_policy_class(&mut self, id: u32, name: &str) -> (r: Result<(), DeviceError>)
        requires
            qos_wf(old(self)@),
        ensures
            qos_wf(final(self)@),
            (final(self)@, r) == remove_policy_class_spec(old(self)@, id, name@),
    {
        let ghost v = self@;
        let c = match self.class_reference(name) {
            None => {
                return Err(DeviceError::InvalidQosConfig);
            },
            Some(c) => c,
        };
        let k = match find_policy_id(&self.policies, id) {
            None => {
                return Err(DeviceError::InvalidQosConfig);
            },
            Some(k) => k,
        };
        proof {
            crate::keyed::lemma_sorted_unique(v.policies);
            lemma_key_index(v.policies, k as int);
        }
        let mut p = self.policies.remove(k);
        let ghost old_classes = p.1.classes@;
        match c {
            None => {
                if let Some(e) = find_entry(&p.1.classes, None) {
                    p.1.classes.set(e, QosPolicyClass { class: None, bandwidth_kbps: None, priority: None, police: None, shape: None });
                }
            },
            Some(_) => {
                let ghost pred = |e: QosPolicyClass| e.class != c;
                let mut kept: Vec<QosPolicyClass> = Vec::new();
                let mut j: usize = 0;
                while j < p.1.classes.len()
                    invariant
                        j <= old_classes.len(),
                        p.1.classes@ == old_classes,
                        pred == (|e: QosPolicyClass| e.class != c),
                        kept@ == old_classes.take(j as int).filter(pred),
                    decreases old_classes.len() - j,
                {
                    let e = p.1.classes[j];
                    proof {
                        assert(old_classes.take(j + 1) =~= old_classes.take(j as int).push(e));
                        old_classes.take(j as int).lemma_filter_push(e, pred);
                    }
                    if !same_class(e.class, c) {
                        kept.push(e);
                    }
                    j = j + 1;
                }
                proof {
                    assert(old_classes.take(old_classes.len() as int) =~= old_classes);
                }
                p.1.classes = kept;
            },
        }
        let ghost pv = p.1@;
        self.policies.insert(k, p);
        proof {
            assert(self@.policies =~= v.policies.update(k as int, (id, pv)));
            assert(sorted_keys(self@.policies)) by {
                assert forall|a: int, b: int| 0 <= a < b < self@.policies.len() implies #[trigger] self@.policies[a].0 < #[trigger] self@.policies[b].0 by {
                    assert(self@.policies[a].0 == v.policies[a].0 && self@.policies[b].0 == v.policies[b].0);
                }
            }
        }
        Ok(())
    }

    /// Remove policy map `name` when no interface uses it; nothing to do when there is none.
    pub fn remove_qos_policy(&mut self, name: &str) -> (r: Result<(), DeviceError>)
        requires
            qos_wf(old(self)@),
        ensures
            qos_wf(final(self)@),
            (final(self)@, r) == remove_policy_spec(old(self)@, name@),
    {
        let ghost v = self@;
        let owned = string_from_chars(&str_chars(name));
        let i = match find_policy(&self.policies, &owned) {
            None => {
                return Ok(());
            },
            Some(i) => i,
        };
        let id = self.policies[i].0;
        let mut j: usize = 0;
        while j < self.bindings.len()
            invariant
                j <= v.bindings.len(),
                self@ == v,
                qos_wf(v),
                i < v.policies.len(),
                id == v.policies[i as int].0,
                named_at(v.policies, policy_name(), name@) == Some(i as int),
                forall|q: int| 0 <= q < j ==> (#[trigger] v.bindings[q]).1 != id,
            decreases v.bindings.len() - j,
        {
            if self.bindings[j].1 == id {
                assert(v.bindings[j as int].1 == id);
                return Err(DeviceError::InvalidQosConfig);
            }
            j = j + 1;
        }
        let _gone = self.policies.remove(i);
        proof {
            assert(self@.policies =~= v.policies.remove(i as int));
            crate::keyed::lemma_remove_sorted(v.policies, i as int);
        }
        Ok(())
    }

    /// Give interface `interface` of `device` output policy `policy`, or remove it (`None`):
    /// only a physical Ethernet interface takes one, and only a policy map that exists.
    pub fn set_service_policy_output(&mut self, device: &Device, interface: InterfaceId, policy: Option<u32>) -> (r: Result<(), DeviceError>)
        requires
            qos_wf(old(self)@),
            device_wf(device@),
        ensures
            qos_wf(final(self)@),
            (final(self)@, r) == service_policy_spec(old(self)@, device@, interface, policy),
    {
        let ghost v = self@;
        let ethernet = match device.interface(interface) {
            Some((iface, _)) => match iface.kind {
                InterfaceKind::GigabitEthernet | InterfaceKind::TenGigabitEthernet => true,
                _ => false,
            },
            None => false,
        };
        if !ethernet {
            return Err(DeviceError::InvalidQosConfig);
        }
        if let Some(id) = policy {
            if find_policy_id(&self.policies, id).is_none() {
                return Err(DeviceError::InvalidQosConfig);
            }
        }
        let found = find_binding(&self.bindings, interface);
        match policy {
            Some(id) => {
                proof {
                    lemma_put_unique(v.bindings, interface, id);
                }
                match found {
                    Some(i) => {
                        self.bindings.set(i, (interface, id));
                    },
                    None => {
                        self.bindings.push((interface, id));
                    },
                }
                proof {
                    assert(self@.bindings =~= put(v.bindings, interface, id));
                }
            },
            None => {
                proof {
                    lemma_without_unique(v.bindings, interface);
                }
                if let Some(i) = found {
                    let _gone = self.bindings.remove(i);
                }
                proof {
                    assert(self@.bindings =~= without(v.bindings, interface));
                }
            },
        }
        Ok(())
    }
}

/// Whether access list `name` permits the decoded IPv4 packet `packet` of bytes `b`.
fn acl_permits(acl: &AclTable, name: &String, packet: &Ipv4Packet, b: &Vec<u8>) -> (r: bool)
    requires
        acl_wf(acl@),
        packet_error(b@) is None,
        packet.source.0 == be32_at(b@, 12),
        packet.destination.0 == be32_at(b@, 16),
        packet.protocol == protocol_of(b@[9]),
        packet.payload@ == b@.subrange(20, be16_at(b@, 2) as int),
    ensures
        r == acl_permits_spec(acl@, name@, b@),
{
    let ghost source = Ipv4Addr(be32_at(b@, 12));
    let ghost destination = Ipv4Addr(be32_at(b@, 16));
    let ghost protocol = protocol_of(b@[9]);
    let ghost payload = b@.subrange(20, be16_at(b@, 2) as int);
    assert(packet.source == source && packet.destination == destination);
    let name_str = name.as_str();
    assert(name_str@ == name@);
    let looked = acl.acl_id(name_str);
    assert(looked == acl_lookup(acl@.named, name@));
    match looked {
        Some(id) => {
            let list = match acl.list(id) {
                Some(l) => l,
                None => {
                    return false;
                },
            };
            let ghost entries = list@.entries;
            assert(entries == acl@.named[id.0 - 1].entries);
            let mut i: usize = 0;
            while i < list.entries.len()
                invariant
                    i <= entries.len(),
                    entries == list@.entries,
                    acl_lookup(acl@.named, name@) == Some(id),
                    entries == acl@.named[id.0 - 1].entries,
                    source == Ipv4Addr(be32_at(b@, 12)),
                    destination == Ipv4Addr(be32_at(b@, 16)),
                    protocol == protocol_of(b@[9]),
                    payload == b@.subrange(20, be16_at(b@, 2) as int),
                    packet.source == source,
                    packet.destination == destination,
                    packet.protocol == protocol,
                    packet.payload@ == payload,
                    forall|j: int| 0 <= j < i ==> entry_verdict(#[trigger] entries[j].1, source, destination, protocol, payload) is None,
                decreases entries.len() - i,
            {
                match list.entries[i].1.evaluate(packet) {
                    Some(action) => {
                        proof {
                            assert(first_hit(entries, source, destination, protocol, payload, i as int));
                            let k = choose|k: int| first_hit(entries, source, destination, protocol, payload, k);
                            if k < i {
                                assert(entry_verdict(entries[k].1, source, destination, protocol, payload) is None);
                            } else if k > i {
                                assert(entry_verdict(entries[i as int].1, source, destination, protocol, payload) is None);
                            }
                            assert(list.entries@[i as int].1 == entries[i as int].1);
                            assert(entry_verdict(entries[i as int].1, source, destination, protocol, payload) == Some(action));
                            assert(deciding_entry(entries, source, destination, protocol, payload) == Some(i as int));
                            assert(acl_lookup(acl@.named, name@) == Some(id));
                        }
                        return match action {
                            AccessListAction::Permit => true,
                            _ => false,
                        };
                    },
                    None => {},
                }
                i = i + 1;
            }
            proof {
                if exists|k: int| first_hit(entries, source, destination, protocol, payload, k) {
                    let k = choose|k: int| first_hit(entries, source, destination, protocol, payload, k);
                    assert(entry_verdict(entries[k].1, source, destination, protocol, payload) is None);
                }
            }
            false
        },
        None => {
            let chars = str_chars(name.as_str());
            let len = chars.len();
            match parse_decimal(&chars, 0, len, 99) {
                Some(n) => {
                    assert(chars@.subrange(0, len as int) =~= name@);
                    if n == 0 {
                        return false;
                    }
                    match AccessListId::new(n as u8) {
                        Some(list) => acl.access_list_permits(list, packet.source),
                        None => false,
                    }
                },
                None => {
                    assert(chars@.subrange(0, len as int) =~= name@);
                    false
                },
            }
        },
    }
}

/// Whether `x` is among `s`.
fn lists_byte(s: &Vec<u8>, x: u8) -> (r: bool)
    ensures
        r == s@.contains(x),
{
    let mut i: usize = 0;
    while i < s.len()
        invariant
            i <= s@.len(),
            forall|j: int| 0 <= j < i ==> s@[j] != x,
        decreases s@.len() - i,
    {
        if s[i] == x {
            assert(s@[i as int] == x);
            return true;
        }
        i = i + 1;
    }
    false
}

/// What a frame carries, for classification: its bytes inside one 802.1Q tag, the IPv4
/// packet they decode to, and the DS field.
struct Carried {
    body: Vec<u8>,
    ipv4: Option<Ipv4Packet>,
    ds: Option<u8>,
}

/// What frame `f` carries.
fn carried(f: &EthernetFrame) -> (r: Carried)
    ensures
        r.body@ == frame_inner(*f).1,
        r.ipv4 is Some <==> carries_ipv4(*f),
        r.ipv4 matches Some(p) ==> {
            &&& p.source.0 == be32_at(r.body@, 12)
            &&& p.destination.0 == be32_at(r.body@, 16)
            &&& p.protocol == protocol_of(r.body@[9])
            &&& p.payload@ == r.body@.subrange(20, be16_at(r.body@, 2) as int)
        },
        r.ds == ds_field(*f),
{
    let tagged = match f.ethertype {
        EtherType::Dot1Q => f.payload.len() >= 4,
        _ => false,
    };
    let (kind, start) = if tagged {
        (EtherType::from_u16((f.payload[2] as u16) * 256 + (f.payload[3] as u16)), 4usize)
    } else {
        (f.ethertype, 0usize)
    };
    let body = crate::text::copy_range(f.payload.as_slice(), start, f.payload.len());
    proof {
        assert(body@ =~= frame_inner(*f).1);
    }
    let ipv4 = match kind {
        EtherType::Ipv4 => match Ipv4Packet::decode(body.as_slice()) {
            Ok(p) => Some(p),
            Err(_) => None,
        },
        _ => None,
    };
    let ds = match &ipv4 {
        Some(_) => Some(body[1]),
        None => {
            let v6 = match kind {
                EtherType::Ipv6 => body.len() >= 40 && body[0] >> 4u8 == 6,
                _ => false,
            };
            if v6 {
                Some((body[0] << 4u8) | (body[1] >> 4u8))
            } else {
                None
            }
        },
    };
    Carried { body, ipv4, ds }
}

impl QosConfig {
    /// Whether class map `class` selects the frame.
    fn selects(&self, acl: &AclTable, class: &QosClassMap, f: &EthernetFrame, c: &Carried) -> (r: bool)
        requires
            acl_wf(acl@),
            c.body@ == frame_inner(*f).1,
            c.ipv4 is Some <==> carries_ipv4(*f),
            c.ipv4 matches Some(p) ==> {
                &&& p.source.0 == be32_at(c.body@, 12)
                &&& p.destination.0 == be32_at(c.body@, 16)
                &&& p.protocol == protocol_of(c.body@[9])
                &&& p.payload@ == c.body@.subrange(20, be16_at(c.body@, 2) as int)
            },
            c.ds == ds_field(*f),
        ensures
            r == class_selects(acl@, class@, *f),
    {
        let ghost cv = class@;
        let ghost b = frame_inner(*f).1;
        let dscp_holds = match c.ds {
            Some(d) => lists_byte(&class.dscp, d >> 2u8),
            None => false,
        };
        let prec_holds = match &c.ipv4 {
            Some(_) => lists_byte(&class.precedence, c.body[1] >> 5u8),
            None => false,
        };
        let mut acl_holds = false;
        match &c.ipv4 {
            Some(p) => {
                let mut j: usize = 0;
                while j < class.access_lists.len() && !acl_holds
                    invariant
                        j <= cv.access_lists.len(),
                        cv == class@,
                        acl_wf(acl@),
                        packet_error(c.body@) is None,
                        p.source.0 == be32_at(c.body@, 12),
                        p.destination.0 == be32_at(c.body@, 16),
                        p.protocol == protocol_of(c.body@[9]),
                        p.payload@ == c.body@.subrange(20, be16_at(c.body@, 2) as int),
                        acl_holds ==> exists|k: int| 0 <= k < cv.access_lists.len() && acl_permits_spec(acl@, #[trigger] cv.access_lists[k], c.body@),
                        !acl_holds ==> forall|k: int| 0 <= k < j ==> !acl_permits_spec(acl@, #[trigger] cv.access_lists[k], c.body@),
                    decreases cv.access_lists.len() - j,
                {
                    if acl_permits(acl, &class.access_lists[j], p, &c.body) {
                        acl_holds = true;
                        assert(acl_permits_spec(acl@, cv.access_lists[j as int], c.body@));
                    }
                    j = j + 1;
                }
                proof {
                    if !acl_holds && exists|k: int| 0 <= k < cv.access_lists.len() && acl_permits_spec(acl@, #[trigger] cv.access_lists[k], c.body@) {
                        let k = choose|k: int| 0 <= k < cv.access_lists.len() && acl_permits_spec(acl@, #[trigger] cv.access_lists[k], c.body@);
                        assert(!acl_permits_spec(acl@, cv.access_lists[k], c.body@));
                    }
                }
            },
            None => {},
        }
        let dscp = if class.dscp.len() == 0 { None } else { Some(dscp_holds) };
        let prec = if class.precedence.len() == 0 { None } else { Some(prec_holds) };
        let acls = if class.access_lists.len() == 0 { None } else { Some(acl_holds) };
        proof {
            assert(dscp == criterion(cv.dscp.len() == 0, ds_field(*f) matches Some(d) && cv.dscp.contains(d >> 2u8)));
            assert(prec == criterion(cv.precedence.len() == 0, carries_ipv4(*f) && cv.precedence.contains(b[1] >> 5u8)));
        }
        if dscp.is_none() && prec.is_none() && acls.is_none() {
            false
        } else if class.match_all {
            !matches!(dscp, Some(false)) && !matches!(prec, Some(false)) && !matches!(acls, Some(false))
        } else {
            matches!(dscp, Some(true)) || matches!(prec, Some(true)) || matches!(acls, Some(true))
        }
    }

    /// The class of policy map `policy` that frame `frame` falls in, as its position in the
    /// policy map: the first entry that takes it (class-default takes every frame); none when
    /// the policy map does not exist. Access lists come from `acl`.
    pub fn qos_classify(&self, acl: &AclTable, policy: u32, frame: &EthernetFrame) -> (r: Option<usize>)
        requires
            qos_wf(self@),
            acl_wf(acl@),
        ensures
            match classify_spec(self@, acl@, policy, *frame) {
                Some(k) => r == Some(k as usize),
                None => r is None,
            },
    {
        let ghost v = self@;
        let k = match find_policy_id(&self.policies, policy) {
            None => {
                return None;
            },
            Some(k) => k,
        };
        proof {
            crate::keyed::lemma_sorted_unique(v.policies);
            lemma_key_index(v.policies, k as int);
        }
        let c = carried(frame);
        let ghost classes = v.policies[k as int].1.classes;
        assert(classes == self.policies@[k as int].1.classes@);
        let mut i: usize = 0;
        while i < self.policies[k].1.classes.len()
            invariant
                self@ == v,
                qos_wf(v),
                acl_wf(acl@),
                k < self.policies@.len(),
                classes == self.policies@[k as int].1.classes@,
                classes == value_of(v.policies, policy).classes,
                has_key(v.policies, policy),
                i <= classes.len(),
                c.body@ == frame_inner(*frame).1,
                c.ipv4 is Some <==> carries_ipv4(*frame),
                c.ipv4 matches Some(p) ==> {
                    &&& p.source.0 == be32_at(c.body@, 12)
                    &&& p.destination.0 == be32_at(c.body@, 16)
                    &&& p.protocol == protocol_of(c.body@[9])
                    &&& p.payload@ == c.body@.subrange(20, be16_at(c.body@, 2) as int)
                },
                c.ds == ds_field(*frame),
                forall|j: int| 0 <= j < i ==> !entry_takes(v, acl@, #[trigger] classes[j], *frame),
            decreases classes.len() - i,
        {
            let e = self.policies[k].1.classes[i];
            let takes = match e.class {
                None => true,
                Some(id) => match find_class_id(&self.classes, id) {
                    None => false,
                    Some(m) => {
                        proof {
                            crate::keyed::lemma_sorted_unique(v.classes);
                            lemma_key_index(v.classes, m as int);
                        }
                        self.selects(acl, &self.classes[m].1, frame, &c)
                    },
                },
            };
            if takes {
                proof {
                    assert(first_taker(v, acl@, classes, *frame, i as int));
                    let q = choose|q: int| first_taker(v, acl@, classes, *frame, q);
                    if q < i {
                        assert(!entry_takes(v, acl@, classes[q], *frame));
                    } else if q > i {
                        assert(!entry_takes(v, acl@, classes[i as int], *frame));
                    }
                }
                return Some(i);
            }
            i = i + 1;
        }
        proof {
            if exists|q: int| first_taker(v, acl@, classes, *frame, q) {
                let q = choose|q: int| first_taker(v, acl@, classes, *frame, q);
                assert(!entry_takes(v, acl@, classes[q], *frame));
            }
        }
        None
    }
}

} // verus!
