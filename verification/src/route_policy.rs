//! Routing policy: prefix lists and route maps, bounded tables of sequenced clauses whose
//! edits are validated and leave the tables unchanged when refused.
use crate::acl::AccessListAction;
use crate::device::{policy_name_ok, policy_name_valid, DeviceError};
use crate::inventory::{routing, Device};
use crate::ipv4::Ipv4Network;
use crate::keyed::{
    find_sequence, insert_at, has_key, key_index, keys_unique, lemma_key_index, lemma_map_entries,
    lemma_put_unique, lemma_remove_sorted, lemma_sorted_unique, lemma_without_unique,
    map_entries, put, put_entry, sorted_keys, sorted_put, value_of, without,
};
use vstd::prelude::*;
use vstd::string::StringSliceAdditionalSpecFns;
use vstd::utf8::encode_utf8;

verus! {

/// Largest number of prefix lists, and of route maps.
pub const MAX_POLICIES: usize = 256;

/// Largest number of clauses in one prefix list or route map.
pub const MAX_POLICY_ENTRIES: usize = 4096;

/// Sequence step between clauses added without a sequence.
pub const PREFIX_SEQUENCE_STEP: u32 = 5;

/// One clause of a prefix list: an action for routes inside `prefix` whose length lies in
/// the range that `ge` and `le` bound (exactly the prefix's length when neither is given).
#[derive(Debug, Clone, Copy, PartialEq, Eq)]
pub struct PrefixListEntry {
    pub action: AccessListAction,
    pub prefix: Ipv4Network,
    pub ge: Option<u8>,
    pub le: Option<u8>,
}

/// A usable length range: each bound lies above the prefix length and at most 32, and `ge`
/// does not exceed `le`.
pub open spec fn prefix_entry_ok(e: PrefixListEntry) -> bool {
    let len = e.prefix@.1;
    &&& e.ge matches Some(g) ==> len < g <= 32
    &&& e.le matches Some(l) ==> len < l <= 32
    &&& e.ge matches Some(g) ==> (e.le matches Some(l) ==> g <= l)
}

impl PrefixListEntry {
    /// Whether the clause's length range is usable.
    pub fn valid(&self) -> (r: bool)
        ensures
            r == prefix_entry_ok(*self),
    {
        let len = self.prefix.prefix_len();
        if let Some(g) = self.ge {
            if !(len < g && g <= 32) {
                return false;
            }
        }
        if let Some(l) = self.le {
            if !(len < l && l <= 32) {
                return false;
            }
        }
        match (self.ge, self.le) {
            (Some(g), Some(l)) => g <= l,
            _ => true,
        }
    }
}

/// One clause of a route map: the action for matching routes, the prefix lists that select
/// them, and the attributes set on them.
#[derive(Debug, Clone)]
pub struct RouteMapEntry {
    pub action: AccessListAction,
    pub prefix_lists: Vec<String>,
    pub as_prepend: Vec<u32>,
    pub local_preference: Option<u32>,
    pub metric: Option<u32>,
}

/// A route-map clause as a mathematical value.
pub struct RouteMapEntryView {
    pub action: AccessListAction,
    pub prefix_lists: Seq<Seq<char>>,
    pub as_prepend: Seq<u32>,
    pub local_preference: Option<u32>,
    pub metric: Option<u32>,
}

impl View for RouteMapEntry {
    type V = RouteMapEntryView;

    open spec fn view(&self) -> RouteMapEntryView {
        RouteMapEntryView {
            action: self.action,
            prefix_lists: self.prefix_lists@.map_values(|s: String| s@),
            as_prepend: self.as_prepend@,
            local_preference: self.local_preference,
            metric: self.metric,
        }
    }
}

/// A clause that matches everything and sets nothing.
pub open spec fn fresh_clause(action: AccessListAction) -> RouteMapEntryView {
    RouteMapEntryView {
        action,
        prefix_lists: Seq::empty(),
        as_prepend: Seq::empty(),
        local_preference: None,
        metric: None,
    }
}

impl RouteMapEntry {
    /// A clause with `action` that matches everything and sets nothing.
    pub fn new(action: AccessListAction) -> (r: RouteMapEntry)
        ensures
            r@ == fresh_clause(action),
    {
        let r = RouteMapEntry {
            action,
            prefix_lists: Vec::new(),
            as_prepend: Vec::new(),
            local_preference: None,
            metric: None,
        };
        assert(r@.prefix_lists =~= Seq::<Seq<char>>::empty());
        r
    }
}

/// Whether a clause may be stored: at most 256 prefix-list names, each a valid policy name,
/// and at most 64 prepended AS numbers, none of them 0 or 4294967295.
pub open spec fn clause_ok(e: RouteMapEntryView) -> bool {
    &&& e.prefix_lists.len() <= MAX_POLICIES
    &&& forall|i: int| 0 <= i < e.prefix_lists.len() ==> policy_name_ok(encode_utf8(#[trigger] e.prefix_lists[i]))
    &&& e.as_prepend.len() <= 64
    &&& forall|i: int| 0 <= i < e.as_prepend.len() ==> #[trigger] e.as_prepend[i] != 0 && e.as_prepend[i] != u32::MAX
}

/// The identifier of a route map.
#[derive(Debug, Clone, Copy, PartialEq, Eq, PartialOrd, Ord, Hash, Structural)]
pub struct RouteMapId(pub u32);

/// A named route map with its clauses in increasing sequence order.
#[derive(Debug, Clone)]
pub struct RouteMap {
    pub name: String,
    pub entries: Vec<(u32, RouteMapEntry)>,
}

/// A route map as a mathematical value.
#[verifier::ext_equal]
pub struct RouteMapView {
    pub name: Seq<char>,
    pub entries: Seq<(u32, RouteMapEntryView)>,
}

/// The mathematical values of clauses.
pub open spec fn clause_views() -> spec_fn(RouteMapEntry) -> RouteMapEntryView {
    |e: RouteMapEntry| e@
}

impl View for RouteMap {
    type V = RouteMapView;

    open spec fn view(&self) -> RouteMapView {
        RouteMapView { name: self.name@, entries: map_entries(self.entries@, clause_views()) }
    }
}

/// Prefix lists by name and route maps in increasing identifier order.
#[derive(Debug)]
pub struct RoutingPolicy {
    prefix_lists: Vec<(String, Vec<(u32, PrefixListEntry)>)>,
    route_maps: Vec<(RouteMapId, RouteMap)>,
}

/// A routing policy as a mathematical value.
#[verifier::ext_equal]
pub struct RoutingPolicyView {
    pub prefix_lists: Seq<(Seq<char>, Seq<(u32, PrefixListEntry)>)>,
    pub route_maps: Seq<(RouteMapId, RouteMapView)>,
}

/// Prefix lists as mathematical values.
pub open spec fn lists_view(s: Seq<(String, Vec<(u32, PrefixListEntry)>)>) -> Seq<(Seq<char>, Seq<(u32, PrefixListEntry)>)> {
    s.map_values(|e: (String, Vec<(u32, PrefixListEntry)>)| (e.0@, e.1@))
}

/// Route maps as mathematical values.
pub open spec fn maps_view(s: Seq<(RouteMapId, RouteMap)>) -> Seq<(RouteMapId, RouteMapView)> {
    s.map_values(|e: (RouteMapId, RouteMap)| (e.0, e.1@))
}

impl View for RoutingPolicy {
    type V = RoutingPolicyView;

    closed spec fn view(&self) -> RoutingPolicyView {
        RoutingPolicyView { prefix_lists: lists_view(self.prefix_lists@), route_maps: maps_view(self.route_maps@) }
    }
}

/// Tables within their limits, prefix-list names unique, route-map identifiers increasing,
/// and clauses in increasing sequence order.
pub open spec fn policy_wf(v: RoutingPolicyView) -> bool {
    &&& v.prefix_lists.len() <= MAX_POLICIES
    &&& keys_unique(v.prefix_lists)
    &&& forall|i: int| 0 <= i < v.prefix_lists.len() ==> sorted_keys((#[trigger] v.prefix_lists[i]).1)
        && v.prefix_lists[i].1.len() <= MAX_POLICY_ENTRIES
    &&& v.route_maps.len() <= MAX_POLICIES
    &&& forall|i: int, j: int| 0 <= i < j < v.route_maps.len() ==> (#[trigger] v.route_maps[i]).0.0
        < (#[trigger] v.route_maps[j]).0.0
    &&& forall|i: int| 0 <= i < v.route_maps.len() ==> sorted_keys((#[trigger] v.route_maps[i]).1.entries)
        && v.route_maps[i].1.entries.len() <= MAX_POLICY_ENTRIES
}

/// The clauses of the prefix list called `name`; none when there is no such list.
pub open spec fn list_entries(v: RoutingPolicyView, name: Seq<char>) -> Seq<(u32, PrefixListEntry)> {
    if has_key(v.prefix_lists, name) {
        value_of(v.prefix_lists, name)
    } else {
        Seq::empty()
    }
}

/// The sequence of a clause added without one: five past the last, or five in a new list;
/// none when that overflows.
pub open spec fn next_prefix_sequence(entries: Seq<(u32, PrefixListEntry)>) -> Option<u32> {
    if entries.len() == 0 {
        Some(5)
    } else if entries.last().0 + 5 > u32::MAX {
        None
    } else {
        Some((entries.last().0 + 5) as u32)
    }
}

/// The state and result of storing `entry` in the prefix list called `name` (text `name`,
/// bytes `bytes`) under `sequence`, or five past its last sequence, creating the list when
/// needed. `supported` tells whether the device routes.
pub open spec fn set_prefix_spec(
    v: RoutingPolicyView,
    name: Seq<char>,
    bytes: Seq<u8>,
    sequence: Option<u32>,
    entry: PrefixListEntry,
    supported: bool,
) -> (RoutingPolicyView, Result<u32, DeviceError>) {
    let existing = has_key(v.prefix_lists, name);
    let entries = list_entries(v, name);
    let seq = match sequence {
        Some(s) => Some(s),
        None => next_prefix_sequence(entries),
    };
    if !supported || !policy_name_ok(bytes) || !prefix_entry_ok(entry) {
        (v, Err(DeviceError::InvalidRoutingPolicy))
    } else {
        match seq {
            None => (v, Err(DeviceError::InvalidRoutingPolicy)),
            Some(s) => if s == 0 || s == u32::MAX {
                (v, Err(DeviceError::InvalidRoutingPolicy))
            } else if (!existing && v.prefix_lists.len() >= MAX_POLICIES) || (existing && entries.len()
                >= MAX_POLICY_ENTRIES && !has_key(entries, s)) {
                (v, Err(DeviceError::InvalidRoutingPolicy))
            } else {
                (
                    RoutingPolicyView { prefix_lists: put(v.prefix_lists, name, sorted_put(entries, s, entry)), ..v },
                    Ok(s),
                )
            },
        }
    }
}

/// The state and result of removing one sequence of the prefix list called `name`, or the
/// whole list when no sequence is given. A list left empty goes away.
pub open spec fn remove_prefix_spec(v: RoutingPolicyView, name: Seq<char>, bytes: Seq<u8>, sequence: Option<u32>) -> (
    RoutingPolicyView,
    Result<(), DeviceError>,
) {
    if !policy_name_ok(bytes) {
        (v, Err(DeviceError::InvalidRoutingPolicy))
    } else {
        match sequence {
            Some(s) => if has_key(v.prefix_lists, name) {
                let rest = without(value_of(v.prefix_lists, name), s);
                if rest.len() == 0 {
                    (RoutingPolicyView { prefix_lists: without(v.prefix_lists, name), ..v }, Ok(()))
                } else {
                    (RoutingPolicyView { prefix_lists: put(v.prefix_lists, name, rest), ..v }, Ok(()))
                }
            } else {
                (v, Ok(()))
            },
            None => (RoutingPolicyView { prefix_lists: without(v.prefix_lists, name), ..v }, Ok(())),
        }
    }
}

/// Whether route map `i` is the first called `name`.
pub open spec fn first_map(maps: Seq<(RouteMapId, RouteMapView)>, name: Seq<char>, i: int) -> bool {
    &&& 0 <= i < maps.len()
    &&& maps[i].1.name == name
    &&& forall|j: int| 0 <= j < i ==> (#[trigger] maps[j]).1.name != name
}

/// Where the first route map called `name` is.
pub open spec fn map_named(maps: Seq<(RouteMapId, RouteMapView)>, name: Seq<char>) -> Option<int> {
    if exists|i: int| first_map(maps, name, i) {
        Some(choose|i: int| first_map(maps, name, i))
    } else {
        None
    }
}

/// The identifier a new route map gets: one past the last, or 1; none when that overflows.
pub open spec fn next_map_id(maps: Seq<(RouteMapId, RouteMapView)>) -> Option<RouteMapId> {
    if maps.len() == 0 {
        Some(RouteMapId(1))
    } else if maps.last().0.0 + 1 > u32::MAX {
        None
    } else {
        Some(RouteMapId((maps.last().0.0 + 1) as u32))
    }
}

/// Clauses after giving sequence `seq` the action `action`: an existing clause keeps its
/// match and set statements, a new clause matches everything and sets nothing.
pub open spec fn with_clause_action(
    entries: Seq<(u32, RouteMapEntryView)>,
    seq: u32,
    action: AccessListAction,
) -> Seq<(u32, RouteMapEntryView)> {
    if has_key(entries, seq) {
        sorted_put(entries, seq, RouteMapEntryView { action, ..value_of(entries, seq) })
    } else {
        sorted_put(entries, seq, fresh_clause(action))
    }
}

/// The state and result of selecting clause `sequence` of the route map called `name` with
/// `action`, creating the map and the clause when needed.
pub open spec fn ensure_map_spec(
    v: RoutingPolicyView,
    name: Seq<char>,
    bytes: Seq<u8>,
    action: AccessListAction,
    sequence: u32,
    supported: bool,
) -> (RoutingPolicyView, Result<RouteMapId, DeviceError>) {
    if !supported || !policy_name_ok(bytes) || sequence == 0 || sequence == u32::MAX {
        (v, Err(DeviceError::InvalidRoutingPolicy))
    } else {
        match map_named(v.route_maps, name) {
            Some(i) => {
                let (id, m) = v.route_maps[i];
                if m.entries.len() >= MAX_POLICY_ENTRIES && !has_key(m.entries, sequence) {
                    (v, Err(DeviceError::InvalidRoutingPolicy))
                } else {
                    (
                        RoutingPolicyView {
                            route_maps: v.route_maps.update(
                                i,
                                (id, RouteMapView { entries: with_clause_action(m.entries, sequence, action), ..m }),
                            ),
                            ..v
                        },
                        Ok(id),
                    )
                }
            },
            None => if v.route_maps.len() >= MAX_POLICIES {
                (v, Err(DeviceError::InvalidRoutingPolicy))
            } else {
                match next_map_id(v.route_maps) {
                    None => (v, Err(DeviceError::InvalidRoutingPolicy)),
                    Some(id) => (
                        RoutingPolicyView {
                            route_maps: v.route_maps.push(
                                (id, RouteMapView { name, entries: seq![(sequence, fresh_clause(action))] }),
                            ),
                            ..v
                        },
                        Ok(id),
                    ),
                }
            },
        }
    }
}

/// Where route map `id` is.
pub open spec fn map_index(maps: Seq<(RouteMapId, RouteMapView)>, id: RouteMapId) -> Option<int> {
    if has_key(maps, id) {
        Some(key_index(maps, id))
    } else {
        None
    }
}

/// The state and result of replacing clause `sequence` of route map `id` with `entry`. The
/// clause must exist.
pub open spec fn set_clause_spec(v: RoutingPolicyView, id: RouteMapId, sequence: u32, entry: RouteMapEntryView) -> (
    RoutingPolicyView,
    Result<(), DeviceError>,
) {
    if !clause_ok(entry) {
        (v, Err(DeviceError::InvalidRoutingPolicy))
    } else {
        match map_index(v.route_maps, id) {
            None => (v, Err(DeviceError::InvalidRoutingPolicy)),
            Some(i) => {
                let m = v.route_maps[i].1;
                if !has_key(m.entries, sequence) {
                    (v, Err(DeviceError::InvalidRoutingPolicy))
                } else {
                    (
                        RoutingPolicyView {
                            route_maps: v.route_maps.update(
                                i,
                                (id, RouteMapView { entries: sorted_put(m.entries, sequence, entry), ..m }),
                            ),
                            ..v
                        },
                        Ok(()),
                    )
                }
            },
        }
    }
}

/// The state and result of removing one clause of the route map called `name`, or the whole
/// map when no sequence is given. A map left empty goes away; a missing map is no error.
pub open spec fn remove_map_spec(v: RoutingPolicyView, name: Seq<char>, bytes: Seq<u8>, sequence: Option<u32>) -> (
    RoutingPolicyView,
    Result<(), DeviceError>,
) {
    if !policy_name_ok(bytes) {
        (v, Err(DeviceError::InvalidRoutingPolicy))
    } else {
        match map_named(v.route_maps, name) {
            None => (v, Ok(())),
            Some(i) => match sequence {
                Some(s) => {
                    let (id, m) = v.route_maps[i];
                    let rest = without(m.entries, s);
                    if rest.len() == 0 {
                        (RoutingPolicyView { route_maps: v.route_maps.remove(i), ..v }, Ok(()))
                    } else {
                        (
                            RoutingPolicyView {
                                route_maps: v.route_maps.update(i, (id, RouteMapView { entries: rest, ..m })),
                                ..v
                            },
                            Ok(()),
                        )
                    }
                },
                None => (RoutingPolicyView { route_maps: v.route_maps.remove(i), ..v }, Ok(())),
            },
        }
    }
}

proof fn lemma_first_map_unique(maps: Seq<(RouteMapId, RouteMapView)>, name: Seq<char>, i: int)
    requires
        first_map(maps, name, i),
    ensures
        map_named(maps, name) == Some(i),
{
    let k = choose|k: int| first_map(maps, name, k);
    if k < i {
        assert(maps[k].1.name != name);
    } else if i < k {
        assert(maps[i].1.name != name);
    }
}

proof fn lemma_ids_unique(maps: Seq<(RouteMapId, RouteMapView)>)
    requires
        forall|i: int, j: int| 0 <= i < j < maps.len() ==> (#[trigger] maps[i]).0.0 < (#[trigger] maps[j]).0.0,
    ensures
        keys_unique(maps),
{
    assert forall|i: int, j: int| 0 <= i < j < maps.len() implies #[trigger] maps[i].0 != #[trigger] maps[j].0 by {
        assert(maps[i].0.0 < maps[j].0.0);
    }
}

/// Where the prefix list called `name` is.
fn find_prefix_list(s: &Vec<(String, Vec<(u32, PrefixListEntry)>)>, name: &String) -> (r: Option<usize>)
    requires
        keys_unique(lists_view(s@)),
    ensures
        match r {
            Some(i) => i < s@.len() && has_key(lists_view(s@), name@) && key_index(lists_view(s@), name@) == i,
            None => !has_key(lists_view(s@), name@),
        },
{
    let ghost v = lists_view(s@);
    let mut i: usize = 0;
    while i < s.len()
        invariant
            v == lists_view(s@),
            keys_unique(v),
            i <= s@.len(),
            forall|j: int| 0 <= j < i ==> #[trigger] v[j].0 != name@,
        decreases s@.len() - i,
    {
        if s[i].0 == *name {
            proof {
                lemma_key_index(v, i as int);
            }
            return Some(i);
        }
        i = i + 1;
    }
    None
}

/// Where the first route map called `name` is.
fn find_map_named(s: &Vec<(RouteMapId, RouteMap)>, name: &String) -> (r: Option<usize>)
    ensures
        r == match map_named(maps_view(s@), name@) {
            Some(i) => Some(i as usize),
            None => None,
        },
{
    let ghost v = maps_view(s@);
    let mut i: usize = 0;
    while i < s.len()
        invariant
            v == maps_view(s@),
            i <= s@.len(),
            forall|j: int| 0 <= j < i ==> (#[trigger] v[j]).1.name != name@,
        decreases s@.len() - i,
    {
        if s[i].1.name == *name {
            proof {
                lemma_first_map_unique(v, name@, i as int);
            }
            return Some(i);
        }
        i = i + 1;
    }
    assert(!exists|k: int| first_map(v, name@, k));
    None
}

/// Where route map `id` is.
fn find_map(s: &Vec<(RouteMapId, RouteMap)>, id: RouteMapId) -> (r: Option<usize>)
    requires
        keys_unique(maps_view(s@)),
    ensures
        r == match map_index(maps_view(s@), id) {
            Some(i) => Some(i as usize),
            None => None,
        },
{
    let ghost v = maps_view(s@);
    let mut i: usize = 0;
    while i < s.len()
        invariant
            v == maps_view(s@),
            keys_unique(v),
            i <= s@.len(),
            forall|j: int| 0 <= j < i ==> #[trigger] v[j].0 != id,
        decreases s@.len() - i,
    {
        if s[i].0.0 == id.0 {
            proof {
                lemma_key_index(v, i as int);
            }
            return Some(i);
        }
        i = i + 1;
    }
    None
}

/// Whether every name is a valid policy name.
fn names_valid(names: &Vec<String>) -> (r: bool)
    ensures
        r == forall|i: int| 0 <= i < names@.len() ==> policy_name_ok(encode_utf8(#[trigger] names@[i]@)),
{
    let mut i: usize = 0;
    while i < names.len()
        invariant
            i <= names@.len(),
            forall|j: int| 0 <= j < i ==> policy_name_ok(encode_utf8(#[trigger] names@[j]@)),
        decreases names@.len() - i,
    {
        if !policy_name_valid(names[i].as_str()) {
            return false;
        }
        i = i + 1;
    }
    true
}

/// Whether a clause may be stored.
fn clause_valid(e: &RouteMapEntry) -> (r: bool)
    ensures
        r == clause_ok(e@),
{
    if e.prefix_lists.len() > MAX_POLICIES || e.as_prepend.len() > 64 {
        return false;
    }
    let names = names_valid(&e.prefix_lists);
    proof {
        assert(names == forall|i: int| 0 <= i < e@.prefix_lists.len() ==> policy_name_ok(encode_utf8(#[trigger] e@.prefix_lists[i]))) by {
            if names {
                assert forall|i: int| 0 <= i < e@.prefix_lists.len() implies policy_name_ok(encode_utf8(#[trigger] e@.prefix_lists[i])) by {
                    assert(e@.prefix_lists[i] == e.prefix_lists@[i]@);
                }
            } else {
                let k = choose|k: int| 0 <= k < e.prefix_lists@.len() && !policy_name_ok(encode_utf8(#[trigger] e.prefix_lists@[k]@));
                assert(e@.prefix_lists[k] == e.prefix_lists@[k]@);
            }
        }
    }
    if !names {
        return false;
    }
    let mut i: usize = 0;
    while i < e.as_prepend.len()
        invariant
            i <= e.as_prepend@.len(),
            forall|j: int| 0 <= j < i ==> #[trigger] e.as_prepend@[j] != 0 && e.as_prepend@[j] != u32::MAX,
        decreases e.as_prepend@.len() - i,
    {
        let n = e.as_prepend[i];
        if n == 0 || n == u32::MAX {
            return false;
        }
        i = i + 1;
    }
    true
}

impl RoutingPolicy {
    /// A policy with no prefix lists or route maps.
    pub fn new() -> (r: RoutingPolicy)
        ensures
            r@ == (RoutingPolicyView { prefix_lists: Seq::empty(), route_maps: Seq::empty() }),
            policy_wf(r@),
    {
        let r = RoutingPolicy { prefix_lists: Vec::new(), route_maps: Vec::new() };
        assert(r@ =~= RoutingPolicyView { prefix_lists: Seq::empty(), route_maps: Seq::empty() });
        r
    }

    /// The clauses of the prefix list called `name`, in sequence order.
    pub fn prefix_list(&self, name: &str) -> (r: Option<&Vec<(u32, PrefixListEntry)>>)
        requires
            policy_wf(self@),
        ensures
            match r {
                Some(l) => has_key(self@.prefix_lists, name@) && l@ == value_of(self@.prefix_lists, name@),
                None => !has_key(self@.prefix_lists, name@),
            },
    {
        let owned = crate::text::string_from_chars(&crate::text::str_chars(name));
        match find_prefix_list(&self.prefix_lists, &owned) {
            Some(i) => {
                assert(lists_view(self.prefix_lists@)[i as int].1 == self.prefix_lists@[i as int].1@);
                Some(&self.prefix_lists[i].1)
            },
            None => None,
        }
    }

    /// The route map `id`.
    pub fn route_map(&self, id: RouteMapId) -> (r: Option<&RouteMap>)
        requires
            policy_wf(self@),
        ensures
            match map_index(self@.route_maps, id) {
                Some(i) => r matches Some(m) && m@ == self@.route_maps[i].1,
                None => r is None,
            },
    {
        proof {
            lemma_ids_unique(self@.route_maps);
        }
        match find_map(&self.route_maps, id) {
            Some(i) => Some(&self.route_maps[i].1),
            None => None,
        }
    }

    /// The number of prefix lists.
    pub fn prefix_list_count(&self) -> (r: usize)
        ensures
            r == self@.prefix_lists.len(),
    {
        self.prefix_lists.len()
    }

    /// The number of route maps.
    pub fn route_map_count(&self) -> (r: usize)
        ensures
            r == self@.route_maps.len(),
    {
        self.route_maps.len()
    }

    /// Store `entry` in the prefix list called `name` under `sequence`, or five past its last
    /// sequence, creating the list when needed; the sequence used is returned.
    /// The device must route.
    pub fn set_prefix_list_entry(
        &mut self,
        name: &str,
        sequence: Option<u32>,
        entry: PrefixListEntry,
        device: &Device,
    ) -> (r: Result<u32, DeviceError>)
        requires
            policy_wf(old(self)@),
        ensures
            policy_wf(final(self)@),
            (final(self)@, r) == set_prefix_spec(old(self)@, name@, name.spec_bytes(), sequence, entry, routing(device@.device_type)),
    {
        let supported = device.supports_routing();
        if !supported || !policy_name_valid(name) || !entry.valid() {
            return Err(DeviceError::InvalidRoutingPolicy);
        }
        let owned = crate::text::string_from_chars(&crate::text::str_chars(name));
        let found = find_prefix_list(&self.prefix_lists, &owned);
        let ghost v = self@;
        let seq = match sequence {
            Some(s) => s,
            None => match found {
                None => 5,
                Some(i) => {
                    assert(v.prefix_lists[i as int].1 == self.prefix_lists@[i as int].1@);
                    let n = self.prefix_lists[i].1.len();
                    if n == 0 {
                        5
                    } else {
                        let last = self.prefix_lists[i].1[n - 1].0;
                        if last > u32::MAX - PREFIX_SEQUENCE_STEP {
                            return Err(DeviceError::InvalidRoutingPolicy);
                        }
                        last + PREFIX_SEQUENCE_STEP
                    }
                },
            },
        };
        if seq == 0 || seq == u32::MAX {
            return Err(DeviceError::InvalidRoutingPolicy);
        }
        let ghost old_lists = self.prefix_lists@;
        match found {
            None => {
                if self.prefix_lists.len() >= MAX_POLICIES {
                    return Err(DeviceError::InvalidRoutingPolicy);
                }
                let mut l: Vec<(u32, PrefixListEntry)> = Vec::new();
                l.push((seq, entry));
                self.prefix_lists.push((owned, l));
                proof {
                    let empty = Seq::<(u32, PrefixListEntry)>::empty();
                    assert(insert_at(empty, seq, 0));
                    crate::keyed::lemma_insert_at_unique(empty, seq, 0);
                    assert(sorted_put(empty, seq, entry) =~= seq![(seq, entry)]);
                    assert(lists_view(self.prefix_lists@) =~= lists_view(old_lists).push((name@, seq![(seq, entry)])));
                    lemma_put_unique(v.prefix_lists, name@, seq![(seq, entry)]);
                }
            },
            Some(i) => {
                assert(v.prefix_lists[i as int].1 == self.prefix_lists@[i as int].1@);
                assert(v.prefix_lists[i as int].0 == name@);
                if self.prefix_lists[i].1.len() >= MAX_POLICY_ENTRIES
                    && find_sequence(&self.prefix_lists[i].1, seq).is_none() {
                    return Err(DeviceError::InvalidRoutingPolicy);
                }
                let (key, mut l) = self.prefix_lists.remove(i);
                put_entry(&mut l, seq, entry);
                self.prefix_lists.insert(i, (key, l));
                proof {
                    assert(self.prefix_lists@ =~= old_lists.update(i as int, self.prefix_lists@[i as int]));
                    assert(lists_view(self.prefix_lists@) =~= lists_view(old_lists).update(
                        i as int,
                        (name@, self.prefix_lists@[i as int].1@),
                    ));
                    lemma_put_unique(v.prefix_lists, name@, self.prefix_lists@[i as int].1@);
                }
            },
        }
        proof {
            let spec = set_prefix_spec(old(self)@, name@, name.spec_bytes(), sequence, entry, supported).0;
            assert(self@ =~= spec);
            let w = self@;
            assert forall|k: int| 0 <= k < w.prefix_lists.len() implies sorted_keys((#[trigger] w.prefix_lists[k]).1)
                && w.prefix_lists[k].1.len() <= MAX_POLICY_ENTRIES by {
                if k < v.prefix_lists.len() && w.prefix_lists[k] != v.prefix_lists[k] {
                    assert(k == key_index(v.prefix_lists, name@));
                    assert(sorted_keys(v.prefix_lists[k].1));
                }
            }
        }
        Ok(seq)
    }

    /// Remove one sequence of the prefix list called `name`, or the whole list when no
    /// sequence is given. A list left empty goes away.
    pub fn remove_prefix_list(&mut self, name: &str, sequence: Option<u32>) -> (r: Result<(), DeviceError>)
        requires
            policy_wf(old(self)@),
        ensures
            policy_wf(final(self)@),
            (final(self)@, r) == remove_prefix_spec(old(self)@, name@, name.spec_bytes(), sequence),
    {
        if !policy_name_valid(name) {
            return Err(DeviceError::InvalidRoutingPolicy);
        }
        let owned = crate::text::string_from_chars(&crate::text::str_chars(name));
        let ghost v = self@;
        let ghost old_lists = self.prefix_lists@;
        let found = find_prefix_list(&self.prefix_lists, &owned);
        if let Some(i) = found {
            assert(v.prefix_lists[i as int].1 == self.prefix_lists@[i as int].1@);
            assert(v.prefix_lists[i as int].0 == name@);
            proof {
                crate::keyed::lemma_without_unique(v.prefix_lists, name@);
            }
            let (key, mut l) = self.prefix_lists.remove(i);
            assert(lists_view(self.prefix_lists@) =~= lists_view(old_lists).remove(i as int));
            if let Some(s) = sequence {
                if let Some(j) = find_sequence(&l, s) {
                    proof {
                        lemma_remove_sorted(l@, j as int);
                    }
                    let _ = l.remove(j);
                }
                if l.len() != 0 {
                    self.prefix_lists.insert(i, (key, l));
                    proof {
                        assert(self.prefix_lists@ =~= old_lists.update(i as int, self.prefix_lists@[i as int]));
                        assert(lists_view(self.prefix_lists@) =~= lists_view(old_lists).update(
                            i as int,
                            (name@, self.prefix_lists@[i as int].1@),
                        ));
                        lemma_put_unique(v.prefix_lists, name@, self.prefix_lists@[i as int].1@);
                    }
                }
            }
        }
        proof {
            let spec = remove_prefix_spec(old(self)@, name@, name.spec_bytes(), sequence).0;
            assert(self@ =~= spec);
            let w = self@;
            assert forall|k: int| 0 <= k < w.prefix_lists.len() implies sorted_keys((#[trigger] w.prefix_lists[k]).1)
                && w.prefix_lists[k].1.len() <= MAX_POLICY_ENTRIES by {
                if let Some(i) = found {
                    if w.prefix_lists.len() == v.prefix_lists.len() {
                        if k != i {
                            assert(w.prefix_lists[k] == v.prefix_lists[k]);
                        }
                    } else {
                        let k2 = if k < i { k } else { k + 1 };
                        assert(w.prefix_lists[k] == v.prefix_lists[k2]);
                    }
                }
            }
        }
        Ok(())
    }

    /// Select clause `sequence` of the route map called `name` with `action`, creating the
    /// map and the clause when needed; an existing clause keeps its match and set
    /// statements. The device must route.
    pub fn ensure_route_map(
        &mut self,
        name: &str,
        action: AccessListAction,
        sequence: u32,
        device: &Device,
    ) -> (r: Result<RouteMapId, DeviceError>)
        requires
            policy_wf(old(self)@),
        ensures
            policy_wf(final(self)@),
            (final(self)@, r) == ensure_map_spec(old(self)@, name@, name.spec_bytes(), action, sequence, routing(device@.device_type)),
    {
        let supported = device.supports_routing();
        if !supported || !policy_name_valid(name) || sequence == 0 || sequence == u32::MAX {
            return Err(DeviceError::InvalidRoutingPolicy);
        }
        let owned = crate::text::string_from_chars(&crate::text::str_chars(name));
        let ghost v = self@;
        let ghost old_maps = self.route_maps@;
        match find_map_named(&self.route_maps, &owned) {
            Some(i) => {
                let ghost m = v.route_maps[i as int].1;
                assert(m == self.route_maps@[i as int].1@);
                let ghost exec_entries = self.route_maps@[i as int].1.entries@;
                proof {
                    assert(sorted_keys(exec_entries)) by {
                        assert forall|a: int, b: int| 0 <= a < b < exec_entries.len() implies #[trigger] exec_entries[a].0
                            < #[trigger] exec_entries[b].0 by {
                            assert(m.entries[a].0 == exec_entries[a].0 && m.entries[b].0 == exec_entries[b].0);
                        }
                    }
                    crate::keyed::lemma_map_entries_keys(exec_entries, clause_views(), sequence);
                }
                let has = find_sequence(&self.route_maps[i].1.entries, sequence);
                if self.route_maps[i].1.entries.len() >= MAX_POLICY_ENTRIES && has.is_none() {
                    return Err(DeviceError::InvalidRoutingPolicy);
                }
                let (id, mut rm) = self.route_maps.remove(i);
                match has {
                    Some(j) => {
                        let (s0, mut e) = rm.entries.remove(j);
                        e.action = action;
                        rm.entries.insert(j, (s0, e));
                        proof {
                            assert(rm.entries@ =~= exec_entries.update(j as int, (sequence, e)));
                            lemma_sorted_unique(m.entries);
                            lemma_key_index(m.entries, j as int);
                            assert(map_entries(rm.entries@, clause_views()) =~= m.entries.update(
                                j as int,
                                (sequence, RouteMapEntryView { action, ..value_of(m.entries, sequence) }),
                            ));
                        }
                    },
                    None => {
                        let fresh = RouteMapEntry::new(action);
                        put_entry(&mut rm.entries, sequence, fresh);
                        proof {
                            lemma_map_entries(exec_entries, clause_views(), sequence, fresh);
                        }
                    },
                }
                self.route_maps.insert(i, (id, rm));
                proof {
                    assert(self.route_maps@ =~= old_maps.update(i as int, self.route_maps@[i as int]));
                    assert(maps_view(self.route_maps@) =~= maps_view(old_maps).update(
                        i as int,
                        (id, self.route_maps@[i as int].1@),
                    ));
                    let spec = ensure_map_spec(old(self)@, name@, name.spec_bytes(), action, sequence, supported).0;
                    assert(self@ =~= spec);
                    let w = self@;
                    assert forall|k: int| 0 <= k < w.route_maps.len() implies sorted_keys((#[trigger] w.route_maps[k]).1.entries)
                        && w.route_maps[k].1.entries.len() <= MAX_POLICY_ENTRIES by {
                        if k != i {
                            assert(w.route_maps[k] == v.route_maps[k]);
                        } else {
                            crate::keyed::lemma_sorted_put_read(m.entries, sequence, RouteMapEntryView { action, ..value_of(m.entries, sequence) });
                            crate::keyed::lemma_sorted_put_read(m.entries, sequence, fresh_clause(action));
                        }
                    }
                    assert forall|a: int, b: int| 0 <= a < b < w.route_maps.len() implies (#[trigger] w.route_maps[a]).0.0
                        < (#[trigger] w.route_maps[b]).0.0 by {
                        assert(w.route_maps[a].0 == v.route_maps[a].0 && w.route_maps[b].0 == v.route_maps[b].0);
                    }
                }
                Ok(id)
            },
            None => {
                let n = self.route_maps.len();
                if n >= MAX_POLICIES {
                    return Err(DeviceError::InvalidRoutingPolicy);
                }
                let id = if n == 0 {
                    RouteMapId(1)
                } else {
                    let last = self.route_maps[n - 1].0.0;
                    if last == u32::MAX {
                        return Err(DeviceError::InvalidRoutingPolicy);
                    }
                    RouteMapId(last + 1)
                };
                let fresh = RouteMapEntry::new(action);
                let mut entries: Vec<(u32, RouteMapEntry)> = Vec::new();
                entries.push((sequence, fresh));
                let rm = RouteMap { name: owned, entries };
                assert(rm@.entries =~= seq![(sequence, fresh_clause(action))]);
                self.route_maps.push((id, rm));
                proof {
                    assert(maps_view(self.route_maps@) =~= maps_view(old_maps).push((id, rm@)));
                    let spec = ensure_map_spec(old(self)@, name@, name.spec_bytes(), action, sequence, supported).0;
                    assert(self@ =~= spec);
                    let w = self@;
                    assert forall|a: int, b: int| 0 <= a < b < w.route_maps.len() implies (#[trigger] w.route_maps[a]).0.0
                        < (#[trigger] w.route_maps[b]).0.0 by {
                        if b == n {
                            if a < n - 1 {
                                assert(v.route_maps[a].0.0 < v.route_maps[n - 1].0.0);
                            }
                        }
                    }
                    assert forall|k: int| 0 <= k < w.route_maps.len() implies sorted_keys((#[trigger] w.route_maps[k]).1.entries)
                        && w.route_maps[k].1.entries.len() <= MAX_POLICY_ENTRIES by {
                        if k < n {
                            assert(w.route_maps[k] == v.route_maps[k]);
                        }
                    }
                }
                Ok(id)
            },
        }
    }

    /// Replace clause `sequence` of route map `id` with `entry`; the clause must exist.
    pub fn set_route_map_entry(&mut self, id: RouteMapId, sequence: u32, entry: RouteMapEntry) -> (r: Result<(), DeviceError>)
        requires
            policy_wf(old(self)@),
        ensures
            policy_wf(final(self)@),
            (final(self)@, r) == set_clause_spec(old(self)@, id, sequence, entry@),
    {
        if !clause_valid(&entry) {
            return Err(DeviceError::InvalidRoutingPolicy);
        }
        proof {
            lemma_ids_unique(self@.route_maps);
        }
        let ghost v = self@;
        let ghost old_maps = self.route_maps@;
        let i = match find_map(&self.route_maps, id) {
            Some(i) => i,
            None => {
                return Err(DeviceError::InvalidRoutingPolicy);
            },
        };
        let ghost m = v.route_maps[i as int].1;
        assert(m == self.route_maps@[i as int].1@);
        let ghost exec_entries = self.route_maps@[i as int].1.entries@;
        proof {
            assert(sorted_keys(exec_entries)) by {
                assert forall|a: int, b: int| 0 <= a < b < exec_entries.len() implies #[trigger] exec_entries[a].0
                    < #[trigger] exec_entries[b].0 by {
                    assert(m.entries[a].0 == exec_entries[a].0 && m.entries[b].0 == exec_entries[b].0);
                }
            }
            crate::keyed::lemma_map_entries_keys(exec_entries, clause_views(), sequence);
        }
        let j = match find_sequence(&self.route_maps[i].1.entries, sequence) {
            Some(j) => j,
            None => {
                return Err(DeviceError::InvalidRoutingPolicy);
            },
        };
        let ghost ev = entry@;
        let (key, mut rm) = self.route_maps.remove(i);
        rm.entries.set(j, (sequence, entry));
        self.route_maps.insert(i, (key, rm));
        proof {
            lemma_sorted_unique(m.entries);
            lemma_key_index(m.entries, j as int);
            crate::keyed::lemma_sorted_put_read(m.entries, sequence, ev);
            assert(sorted_put(m.entries, sequence, ev) == m.entries.update(j as int, (sequence, ev)));
            assert(self.route_maps@ =~= old_maps.update(i as int, self.route_maps@[i as int]));
            assert(map_entries(self.route_maps@[i as int].1.entries@, clause_views()) =~= m.entries.update(
                j as int,
                (sequence, ev),
            ));
            assert(maps_view(self.route_maps@) =~= maps_view(old_maps).update(
                i as int,
                (id, self.route_maps@[i as int].1@),
            ));
            let spec = set_clause_spec(old(self)@, id, sequence, ev).0;
            assert(self@ =~= spec);
            let w = self@;
            assert forall|k: int| 0 <= k < w.route_maps.len() implies sorted_keys((#[trigger] w.route_maps[k]).1.entries)
                && w.route_maps[k].1.entries.len() <= MAX_POLICY_ENTRIES by {
                if k != i {
                    assert(w.route_maps[k] == v.route_maps[k]);
                }
            }
            assert forall|a: int, b: int| 0 <= a < b < w.route_maps.len() implies (#[trigger] w.route_maps[a]).0.0
                < (#[trigger] w.route_maps[b]).0.0 by {
                assert(w.route_maps[a].0 == v.route_maps[a].0 && w.route_maps[b].0 == v.route_maps[b].0);
            }
        }
        Ok(())
    }

    /// Remove one clause of the route map called `name`, or the whole map when no sequence
    /// is given. A map left empty goes away; a missing map is no error.
    pub fn remove_route_map(&mut self, name: &str, sequence: Option<u32>) -> (r: Result<(), DeviceError>)
        requires
            policy_wf(old(self)@),
        ensures
            policy_wf(final(self)@),
            (final(self)@, r) == remove_map_spec(old(self)@, name@, name.spec_bytes(), sequence),
    {
        if !policy_name_valid(name) {
            return Err(DeviceError::InvalidRoutingPolicy);
        }
        let owned = crate::text::string_from_chars(&crate::text::str_chars(name));
        let ghost v = self@;
        let ghost old_maps = self.route_maps@;
        let found = find_map_named(&self.route_maps, &owned);
        if let Some(i) = found {
            let ghost m = v.route_maps[i as int].1;
            assert(m == self.route_maps@[i as int].1@);
            let ghost exec_entries = self.route_maps@[i as int].1.entries@;
            let (key, mut rm) = self.route_maps.remove(i);
            assert(maps_view(self.route_maps@) =~= maps_view(old_maps).remove(i as int));
            if let Some(s) = sequence {
                proof {
                    assert(sorted_keys(exec_entries)) by {
                        assert forall|a: int, b: int| 0 <= a < b < exec_entries.len() implies #[trigger] exec_entries[a].0
                            < #[trigger] exec_entries[b].0 by {
                            assert(m.entries[a].0 == exec_entries[a].0 && m.entries[b].0 == exec_entries[b].0);
                        }
                    }
                    crate::keyed::lemma_map_entries_keys(exec_entries, clause_views(), s);
                    lemma_sorted_unique(exec_entries);
                    lemma_without_unique(exec_entries, s);
                }
                if let Some(j) = find_sequence(&rm.entries, s) {
                    proof {
                        lemma_remove_sorted(m.entries, j as int);
                        lemma_sorted_unique(m.entries);
                        lemma_key_index(m.entries, j as int);
                    }
                    let _ = rm.entries.remove(j);
                }
                if rm.entries.len() != 0 {
                    self.route_maps.insert(i, (key, rm));
                    proof {
                        assert(self.route_maps@ =~= old_maps.update(i as int, self.route_maps@[i as int]));
                        assert(maps_view(self.route_maps@) =~= maps_view(old_maps).update(
                            i as int,
                            (key, self.route_maps@[i as int].1@),
                        ));
                    }
                }
            }
        }
        proof {
            let spec = remove_map_spec(old(self)@, name@, name.spec_bytes(), sequence).0;
            assert(self@ =~= spec);
            let w = self@;
            if let Some(i) = found {
                if w.route_maps.len() == v.route_maps.len() {
                    assert forall|k: int| 0 <= k < w.route_maps.len() implies sorted_keys((#[trigger] w.route_maps[k]).1.entries)
                        && w.route_maps[k].1.entries.len() <= MAX_POLICY_ENTRIES by {
                        if k != i {
                            assert(w.route_maps[k] == v.route_maps[k]);
                        } else {
                            crate::keyed::lemma_without_read(v.route_maps[k].1.entries, sequence->0);
                            if has_key(v.route_maps[k].1.entries, sequence->0) {
                                lemma_sorted_unique(v.route_maps[k].1.entries);
                                lemma_remove_sorted(v.route_maps[k].1.entries, key_index(v.route_maps[k].1.entries, sequence->0));
                            }
                        }
                    }
                    assert forall|a: int, b: int| 0 <= a < b < w.route_maps.len() implies (#[trigger] w.route_maps[a]).0.0
                        < (#[trigger] w.route_maps[b]).0.0 by {
                        assert(w.route_maps[a].0 == v.route_maps[a].0 && w.route_maps[b].0 == v.route_maps[b].0);
                    }
                } else {
                    assert forall|k: int| 0 <= k < w.route_maps.len() implies sorted_keys((#[trigger] w.route_maps[k]).1.entries)
                        && w.route_maps[k].1.entries.len() <= MAX_POLICY_ENTRIES by {
                        let k2 = if k < i { k } else { k + 1 };
                        assert(w.route_maps[k] == v.route_maps[k2]);
                    }
                    assert forall|a: int, b: int| 0 <= a < b < w.route_maps.len() implies (#[trigger] w.route_maps[a]).0.0
                        < (#[trigger] w.route_maps[b]).0.0 by {
                        let a2 = if a < i { a } else { a + 1 };
                        let b2 = if b < i { b } else { b + 1 };
                        assert(w.route_maps[a] == v.route_maps[a2] && w.route_maps[b] == v.route_maps[b2]);
                    }
                }
            }
        }
        Ok(())
    }
}


proof fn lemma_map_has_first(maps: Seq<(RouteMapId, RouteMapView)>, name: Seq<char>, j: int)
    requires
        0 <= j < maps.len(),
        maps[j].1.name == name,
    ensures
        exists|i: int| first_map(maps, name, i),
    decreases j,
{
    if exists|k: int| 0 <= k < j && (#[trigger] maps[k]).1.name == name {
        let k = choose|k: int| 0 <= k < j && (#[trigger] maps[k]).1.name == name;
        lemma_map_has_first(maps, name, k);
    } else {
        assert(first_map(maps, name, j));
    }
}

/// A refused edit leaves the policy as it was: every operation that returns an error
/// returns the state unchanged.
pub proof fn lemma_refused_edit_changes_nothing(
    v: RoutingPolicyView,
    name: Seq<char>,
    bytes: Seq<u8>,
    sequence: Option<u32>,
    seq: u32,
    id: RouteMapId,
    entry: PrefixListEntry,
    clause: RouteMapEntryView,
    action: AccessListAction,
    supported: bool,
)
    ensures
        set_prefix_spec(v, name, bytes, sequence, entry, supported).1 is Err ==> set_prefix_spec(
            v,
            name,
            bytes,
            sequence,
            entry,
            supported,
        ).0 == v,
        remove_prefix_spec(v, name, bytes, sequence).1 is Err ==> remove_prefix_spec(v, name, bytes, sequence).0
            == v,
        ensure_map_spec(v, name, bytes, action, seq, supported).1 is Err ==> ensure_map_spec(
            v,
            name,
            bytes,
            action,
            seq,
            supported,
        ).0 == v,
        set_clause_spec(v, id, seq, clause).1 is Err ==> set_clause_spec(v, id, seq, clause).0 == v,
        remove_map_spec(v, name, bytes, sequence).1 is Err ==> remove_map_spec(v, name, bytes, sequence).0 == v,
{
}

/// What a read gives back of a write: after a prefix clause is stored, its list holds it
/// under the sequence returned, every other sequence of the list keeps its clause, and the
/// other lists are untouched.
pub proof fn lemma_prefix_entry_then_read(
    v: RoutingPolicyView,
    name: Seq<char>,
    bytes: Seq<u8>,
    sequence: Option<u32>,
    entry: PrefixListEntry,
    supported: bool,
)
    requires
        policy_wf(v),
        set_prefix_spec(v, name, bytes, sequence, entry, supported).1 is Ok,
    ensures
        ({
            let (w, r) = set_prefix_spec(v, name, bytes, sequence, entry, supported);
            let s = r->Ok_0;
            &&& has_key(w.prefix_lists, name)
            &&& has_key(list_entries(w, name), s)
            &&& value_of(list_entries(w, name), s) == entry
            &&& forall|k: u32| k != s ==> (has_key(list_entries(w, name), k) == has_key(list_entries(v, name), k))
            &&& forall|k: u32| k != s && has_key(list_entries(v, name), k) ==> value_of(list_entries(w, name), k)
                == value_of(list_entries(v, name), k)
            &&& forall|other: Seq<char>| other != name ==> list_entries(w, other) == list_entries(v, other)
        }),
{
    let (w, r) = set_prefix_spec(v, name, bytes, sequence, entry, supported);
    let s = r->Ok_0;
    let old_entries = list_entries(v, name);
    assert(sorted_keys(old_entries)) by {
        if has_key(v.prefix_lists, name) {
            let i = key_index(v.prefix_lists, name);
            crate::keyed::lemma_key_index(v.prefix_lists, i);
            assert(sorted_keys(v.prefix_lists[i].1));
        }
    }
    crate::keyed::lemma_sorted_put_read(old_entries, s, entry);
    let new_entries = sorted_put(old_entries, s, entry);
    crate::keyed::lemma_put_holds(v.prefix_lists, name, new_entries);
    lemma_put_unique(v.prefix_lists, name, new_entries);
    crate::keyed::lemma_value_of(w.prefix_lists, name, new_entries);
    assert forall|other: Seq<char>| other != name implies list_entries(w, other) == list_entries(v, other) by {
        crate::keyed::lemma_put_other(v.prefix_lists, name, new_entries, other);
    }
}

/// Selecting a route-map clause is idempotent: selecting the same name, action and
/// sequence again returns the same identifier and changes nothing.
pub proof fn lemma_ensure_route_map_idempotent(
    v: RoutingPolicyView,
    name: Seq<char>,
    bytes: Seq<u8>,
    action: AccessListAction,
    sequence: u32,
    supported: bool,
)
    requires
        policy_wf(v),
        ensure_map_spec(v, name, bytes, action, sequence, supported).1 is Ok,
    ensures
        ensure_map_spec(ensure_map_spec(v, name, bytes, action, sequence, supported).0, name, bytes, action, sequence, supported)
            == ensure_map_spec(v, name, bytes, action, sequence, supported),
{
    let (w, r) = ensure_map_spec(v, name, bytes, action, sequence, supported);
    let i = match map_named(v.route_maps, name) {
        Some(i) => {
            let m = v.route_maps[i].1;
            let e = if has_key(m.entries, sequence) {
                RouteMapEntryView { action, ..value_of(m.entries, sequence) }
            } else {
                fresh_clause(action)
            };
            crate::keyed::lemma_sorted_put_read(m.entries, sequence, e);
            assert forall|j: int| 0 <= j < i implies (#[trigger] w.route_maps[j]).1.name != name by {
                assert(w.route_maps[j] == v.route_maps[j]);
            }
            assert(first_map(w.route_maps, name, i));
            i
        },
        None => {
            let n = v.route_maps.len() as int;
            assert forall|j: int| 0 <= j < n implies (#[trigger] w.route_maps[j]).1.name != name by {
                assert(w.route_maps[j] == v.route_maps[j]);
                if v.route_maps[j].1.name == name {
                    lemma_map_has_first(v.route_maps, name, j);
                }
            }
            assert(first_map(w.route_maps, name, n));
            let single = seq![(sequence, fresh_clause(action))];
            assert(has_key(single, sequence)) by {
                assert(single[0].0 == sequence);
            }
            lemma_key_index(single, 0);
            n
        },
    };
    lemma_first_map_unique(w.route_maps, name, i);
    let wm = w.route_maps[i].1;
    assert(has_key(wm.entries, sequence));
    assert(value_of(wm.entries, sequence).action == action);
    let e2 = RouteMapEntryView { action, ..value_of(wm.entries, sequence) };
    assert(e2 == value_of(wm.entries, sequence));
    lemma_sorted_unique(wm.entries);
    let k = key_index(wm.entries, sequence);
    lemma_key_index(wm.entries, k);
    assert(wm.entries.update(k, (sequence, e2)) =~= wm.entries);
    assert(w.route_maps.update(i, (w.route_maps[i].0, RouteMapView { entries: wm.entries, ..wm })) =~= w.route_maps);
}

} // verus!
