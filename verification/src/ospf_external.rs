//! The AS-external LSAs of an AS boundary router: static routes redistributed into OSPF and
//! a default route originated by policy, advertised longest prefix first, then by address.
//! Each LSA takes its prefix's address as link-state identifier when no earlier one holds
//! it, else the prefix's broadcast address, else the first free address of the prefix among
//! as many as there are LSAs so far plus one; a prefix left without an identifier is not
//! advertised.
use crate::ipv4::{mask_bits, Ipv4Addr, Ipv4Network};
use crate::ospf::{desired_wf, keyed_view, lsa_key, LsaView, OspfLsa};
use crate::ospf_links::LSA_INITIAL_SEQUENCE;
use crate::routing::{Route, RouteSource};
use vstd::prelude::*;

verus! {

/// The bound below which an external metric must stay.
pub const OSPF_EXTERNAL_METRIC_LIMIT: u32 = 0x00ff_ffff;

/// Redistribution of static routes into OSPF: the metric and whether as external type 2.
#[derive(Debug, Clone, Copy, PartialEq, Eq)]
pub struct OspfRedistribute {
    pub metric: u32,
    pub type_two: bool,
}

/// Origination of a default route: the metric, whether as external type 2, and whether
/// even without a default route of its own.
#[derive(Debug, Clone, Copy, PartialEq, Eq)]
pub struct OspfDefaultRoute {
    pub metric: u32,
    pub type_two: bool,
    pub always: bool,
}

/// Whether prefix `a` is advertised before prefix `b`: a longer one first, then the lower
/// address.
pub open spec fn advertised_before(a: (u32, u8), b: (u32, u8)) -> bool {
    a.1 > b.1 || (a.1 == b.1 && a.0 < b.0)
}

/// External prefixes (prefix, metric, type 2) in advertising order, each prefix once.
pub open spec fn externals_sorted(s: Seq<((u32, u8), u32, bool)>) -> bool {
    forall|i: int, j: int| 0 <= i < j < s.len() ==> advertised_before(#[trigger] s[i].0, #[trigger] s[j].0)
}

/// External prefixes as mathematical values.
pub open spec fn externals_view(s: Seq<(Ipv4Network, u32, bool)>) -> Seq<((u32, u8), u32, bool)> {
    s.map_values(|e: (Ipv4Network, u32, bool)| (e.0@, e.1, e.2))
}

/// Whether `p`, not the default prefix, is the prefix of a static route.
pub open spec fn redistributed(routes: Seq<Route>, p: (u32, u8)) -> bool {
    &&& p.1 != 0
    &&& exists|i: int|
        0 <= i < routes.len() && (#[trigger] routes[i]).source == RouteSource::Static && routes[i].prefix@ == p
}

/// Whether a connected or static default route is among `routes`.
pub open spec fn has_default_route(routes: Seq<Route>) -> bool {
    exists|i: int|
        0 <= i < routes.len() && (#[trigger] routes[i]).prefix@.1 == 0 && (routes[i].source
            == RouteSource::Connected || routes[i].source == RouteSource::Static)
}

/// Whether `e` is advertised as external: a redistributed static prefix with the
/// redistribution's metric and type, or the default prefix with the default policy's, when
/// that policy holds always or a default route exists.
pub open spec fn external_entry(
    routes: Seq<Route>,
    redistribute: Option<OspfRedistribute>,
    default: Option<OspfDefaultRoute>,
    e: ((u32, u8), u32, bool),
) -> bool {
    ||| redistribute matches Some(r) && redistributed(routes, e.0) && e.1 == r.metric && e.2 == r.type_two
    ||| default matches Some(d) && (d.always || has_default_route(routes)) && e.0 == (0u32, 0u8)
        && e.1 == d.metric && e.2 == d.type_two
}

/// The first address from `from` to `to` that no LSA in `taken` holds.
pub open spec fn first_free(taken: Seq<u32>, from: int, to: int) -> Option<u32>
    decreases to + 1 - from,
{
    if from > to {
        None
    } else if !taken.contains(from as u32) {
        Some(from as u32)
    } else {
        first_free(taken, from + 1, to)
    }
}

/// The identifier of the prefix from `address` to `broadcast` when `taken` are held: the
/// address, else the broadcast address, else the first free one of the first
/// `taken.len() + 1` addresses of the prefix.
pub open spec fn chosen_id(taken: Seq<u32>, address: u32, broadcast: u32) -> Option<u32> {
    if !taken.contains(address) {
        Some(address)
    } else if !taken.contains(broadcast) {
        Some(broadcast)
    } else {
        first_free(
            taken,
            address as int,
            if broadcast < address + taken.len() { broadcast as int } else { address + taken.len() },
        )
    }
}

/// The AS-external LSA of router `self_id` for `e` under identifier `id`: its body the mask,
/// the type 2 bit with the metric, no forwarding address and no tag.
pub open spec fn external_lsa(e: ((u32, u8), u32, bool), id: u32, self_id: u32) -> LsaView {
    LsaView {
        kind: 5,
        link_state_id: id,
        advertising_router: self_id,
        age: 0,
        sequence: LSA_INITIAL_SEQUENCE,
        body: seq![mask_bits(e.0.1), ((if e.2 { 0x8000_0000u32 } else { 0u32 }) + e.1) as u32, 0u32, 0u32],
    }
}

/// The identifiers the keyed LSAs `s` hold.
pub open spec fn held_ids(s: Seq<((u32, u8, u32, u32), LsaView)>) -> Seq<u32> {
    s.map_values(|x: ((u32, u8, u32, u32), LsaView)| x.1.link_state_id)
}

/// The keyed AS-external LSAs of router `self_id` for the external prefixes `es`, in order.
pub open spec fn external_lsas_spec(es: Seq<((u32, u8), u32, bool)>, self_id: u32) -> Seq<
    ((u32, u8, u32, u32), LsaView),
>
    decreases es.len(),
{
    if es.len() == 0 {
        Seq::empty()
    } else {
        let prev = external_lsas_spec(es.drop_last(), self_id);
        let e = es.last();
        match chosen_id(held_ids(prev), e.0.0, e.0.0 | !mask_bits(e.0.1)) {
            Some(id) => prev.push(((0u32, 5u8, id, self_id), external_lsa(e, id, self_id))),
            None => prev,
        }
    }
}

/// Whether `ids` holds `a`.
fn holds(ids: &Vec<u32>, a: u32) -> (r: bool)
    ensures
        r == ids@.contains(a),
{
    let mut i: usize = 0;
    while i < ids.len()
        invariant
            i <= ids@.len(),
            forall|j: int| 0 <= j < i ==> ids@[j] != a,
        decreases ids@.len() - i,
    {
        if ids[i] == a {
            return true;
        }
        i = i + 1;
    }
    false
}

/// The identifier for the prefix from `address` to `broadcast` while `ids` are held.
fn choose_id(ids: &Vec<u32>, address: u32, broadcast: u32) -> (r: Option<u32>)
    requires
        address <= broadcast,
    ensures
        r == chosen_id(ids@, address, broadcast),
{
    if !holds(ids, address) {
        return Some(address);
    }
    if !holds(ids, broadcast) {
        return Some(broadcast);
    }
    let room: u64 = broadcast as u64 - address as u64;
    let n: u64 = ids.len() as u64;
    let last: u64 = if room < n { broadcast as u64 } else { address as u64 + n };
    let ghost to: int = last as int;
    assert(to == if broadcast < address + ids@.len() { broadcast as int } else { address + ids@.len() });
    assert(ids@.contains(address) && ids@.contains(broadcast));
    let mut cur: u64 = address as u64;
    while cur <= last
        invariant
            address as int <= cur <= last + 1,
            last <= broadcast,
            to == last,
            to == if broadcast < address + ids@.len() { broadcast as int } else { address + ids@.len() },
            ids@.contains(address) && ids@.contains(broadcast),
            first_free(ids@, address as int, to) == first_free(ids@, cur as int, to),
        decreases last + 1 - cur,
    {
        if !holds(ids, cur as u32) {
            proof {
                assert(first_free(ids@, cur as int, to) == Some(cur as u32));
            }
            return Some(cur as u32);
        }
        cur = cur + 1;
    }
    None
}

/// The keyed AS-external LSAs of router `self_id` for the external prefixes `externals`.
pub fn external_lsas(self_id: u32, externals: &Vec<(Ipv4Network, u32, bool)>) -> (r: Vec<((u32, u8, u32, u32), OspfLsa)>)
    requires
        forall|i: int| 0 <= i < externals@.len() ==> (#[trigger] externals@[i]).1 < OSPF_EXTERNAL_METRIC_LIMIT,
    ensures
        keyed_view(r@) == external_lsas_spec(externals_view(externals@), self_id),
{
    let ghost es = externals_view(externals@);
    let mut out: Vec<((u32, u8, u32, u32), OspfLsa)> = Vec::new();
    let mut ids: Vec<u32> = Vec::new();
    let mut i: usize = 0;
    while i < externals.len()
        invariant
            i <= externals@.len(),
            es == externals_view(externals@),
            forall|j: int| 0 <= j < externals@.len() ==> (#[trigger] externals@[j]).1 < OSPF_EXTERNAL_METRIC_LIMIT,
            keyed_view(out@) == external_lsas_spec(es.take(i as int), self_id),
            ids@ == held_ids(keyed_view(out@)),
        decreases externals@.len() - i,
    {
        let (prefix, metric, type_two) = externals[i];
        let address = prefix.address().0;
        let mask = prefix.mask().0;
        let broadcast = prefix.broadcast().0;
        assert(address <= (address | !mask)) by (bit_vector);
        let chosen = choose_id(&ids, address, broadcast);
        proof {
            assert(es.take(i + 1).drop_last() =~= es.take(i as int));
            assert(es.take(i + 1).last() == es[i as int]);
        }
        match chosen {
            Some(id) => {
                let flag: u32 = if type_two { 0x8000_0000 } else { 0 };
                let body: Vec<u32> = vec![mask, flag + metric, 0, 0];
                let lsa = OspfLsa {
                    kind: 5,
                    link_state_id: id,
                    advertising_router: self_id,
                    age: 0,
                    sequence: LSA_INITIAL_SEQUENCE,
                    body,
                };
                let ghost before = keyed_view(out@);
                out.push(((0, 5, id, self_id), lsa));
                ids.push(id);
                proof {
                    assert(lsa@.body =~= external_lsa(es[i as int], id, self_id).body);
                    assert(keyed_view(out@) =~= before.push(((0u32, 5u8, id, self_id), external_lsa(es[i as int], id, self_id))));
                    assert(ids@ =~= held_ids(keyed_view(out@)));
                }
            },
            None => {},
        }
        i = i + 1;
    }
    proof {
        assert(es.take(externals@.len() as int) =~= es);
    }
    out
}

/// Whether some entry of `s` is for prefix `p`.
pub open spec fn lists_prefix(s: Seq<((u32, u8), u32, bool)>, p: (u32, u8)) -> bool {
    exists|i: int| 0 <= i < s.len() && (#[trigger] s[i]).0 == p
}

/// Add `e` to the external prefixes `v` in advertising order, unless its prefix is there.
fn put_external(v: &mut Vec<(Ipv4Network, u32, bool)>, e: (Ipv4Network, u32, bool))
    requires
        externals_sorted(externals_view(old(v)@)),
    ensures
        externals_sorted(externals_view(final(v)@)),
        forall|x: ((u32, u8), u32, bool)|
            #[trigger] externals_view(final(v)@).contains(x) <==> (externals_view(old(v)@).contains(x) || (x == (
                e.0@,
                e.1,
                e.2,
            ) && !lists_prefix(externals_view(old(v)@), e.0@))),
{
    let ghost s = externals_view(v@);
    let ghost p = e.0@;
    let pl = e.0.prefix_len();
    let pa = e.0.address().0;
    let mut i: usize = 0;
    while i < v.len()
        invariant
            i <= v@.len(),
            s == externals_view(v@),
            p == e.0@,
            pl == p.1 && pa == p.0,
            forall|j: int| 0 <= j < i ==> advertised_before(#[trigger] s[j].0, p),
        ensures
            i <= v@.len(),
            s == externals_view(v@),
            forall|j: int| 0 <= j < i ==> advertised_before(#[trigger] s[j].0, p),
            i < v@.len() ==> advertised_before(p, s[i as int].0) || s[i as int].0 == p,
        decreases v@.len() - i,
    {
        let q = v[i].0;
        let ql = q.prefix_len();
        let qa = q.address().0;
        assert(s[i as int].0 == (qa, ql));
        if ql < pl || (ql == pl && qa >= pa) {
            break;
        }
        i = i + 1;
    }
    if i < v.len() {
        let q = v[i].0;
        if q.prefix_len() == pl && q.address().0 == pa {
            assert(s[i as int].0 == p);
            assert forall|x: ((u32, u8), u32, bool)|
                #[trigger] externals_view(v@).contains(x) <==> (s.contains(x) || (x == (p, e.1, e.2)
                    && !lists_prefix(s, p))) by {
                assert(lists_prefix(s, p));
            }
            return;
        }
    }
    assert(!lists_prefix(s, p)) by {
        if lists_prefix(s, p) {
            let k = choose|k: int| 0 <= k < s.len() && (#[trigger] s[k]).0 == p;
            if k < i {
                assert(advertised_before(s[k].0, p));
            } else {
                assert(advertised_before(p, s[i as int].0));
                if k > i {
                    assert(advertised_before(s[i as int].0, s[k].0));
                }
            }
        }
    }
    v.insert(i, e);
    proof {
        let t = externals_view(v@);
        assert(t =~= s.insert(i as int, (p, e.1, e.2)));
        assert forall|a: int, b: int| 0 <= a < b < t.len() implies advertised_before(#[trigger] t[a].0, #[trigger] t[b].0) by {
            if b < i {
            } else if a < i && b == i {
            } else if a < i {
                assert(advertised_before(s[a].0, p));
                assert(advertised_before(p, s[i as int].0));
                assert(t[b] == s[b - 1]);
                if b - 1 > i {
                    assert(advertised_before(s[i as int].0, s[b - 1].0));
                }
            } else if a == i {
                assert(t[b] == s[b - 1]);
                assert(advertised_before(p, s[i as int].0));
                if b - 1 > i {
                    assert(advertised_before(s[i as int].0, s[b - 1].0));
                }
            } else {
                assert(t[a] == s[a - 1] && t[b] == s[b - 1]);
            }
        }
        assert forall|x: ((u32, u8), u32, bool)|
            #[trigger] t.contains(x) <==> (s.contains(x) || (x == (p, e.1, e.2) && !lists_prefix(s, p))) by {
            if t.contains(x) {
                let k = choose|k: int| 0 <= k < t.len() && t[k] == x;
                if k < i {
                    assert(s[k] == x);
                } else if k > i {
                    assert(s[k - 1] == x);
                }
            }
            if s.contains(x) {
                let k = choose|k: int| 0 <= k < s.len() && s[k] == x;
                if k < i {
                    assert(t[k] == x);
                } else {
                    assert(t[k + 1] == x);
                }
            }
            if x == (p, e.1, e.2) {
                assert(t[i as int] == x);
            }
        }
    }
}

/// Whether a connected or static default route is among `routes`.
fn find_default_route(routes: &[Route]) -> (r: bool)
    ensures
        r == has_default_route(routes@),
{
    let mut i: usize = 0;
    while i < routes.len()
        invariant
            i <= routes@.len(),
            forall|j: int|
                0 <= j < i ==> !((#[trigger] routes@[j]).prefix@.1 == 0 && (routes@[j].source == RouteSource::Connected
                    || routes@[j].source == RouteSource::Static)),
        decreases routes@.len() - i,
    {
        let route = routes[i];
        if route.prefix.prefix_len() == 0 && (route.source == RouteSource::Connected || route.source == RouteSource::Static) {
            assert(routes@[i as int] == route);
            return true;
        }
        i = i + 1;
    }
    false
}

/// The external prefixes of a router with routes `routes` under the redistribution and
/// default policies, in advertising order, each with its metric and type.
pub fn ospf_external_prefixes(
    routes: &[Route],
    redistribute: Option<OspfRedistribute>,
    default: Option<OspfDefaultRoute>,
) -> (r: Vec<(Ipv4Network, u32, bool)>)
    ensures
        externals_sorted(externals_view(r@)),
        forall|x: ((u32, u8), u32, bool)|
            #[trigger] externals_view(r@).contains(x) <==> external_entry(routes@, redistribute, default, x),
{
    let mut out: Vec<(Ipv4Network, u32, bool)> = Vec::new();
    if let Some(policy) = redistribute {
        let mut i: usize = 0;
        while i < routes.len()
            invariant
                i <= routes@.len(),
                redistribute == Some(policy),
                externals_sorted(externals_view(out@)),
                forall|x: ((u32, u8), u32, bool)|
                    #[trigger] externals_view(out@).contains(x) <==> (x.1 == policy.metric && x.2 == policy.type_two
                        && x.0.1 != 0 && exists|k: int|
                        0 <= k < i && (#[trigger] routes@[k]).source == RouteSource::Static && routes@[k].prefix@ == x.0),
            decreases routes@.len() - i,
        {
            let route = routes[i];
            let ghost before = externals_view(out@);
            if route.source == RouteSource::Static && route.prefix.prefix_len() != 0 {
                put_external(&mut out, (route.prefix, policy.metric, policy.type_two));
                proof {
                    let n = (route.prefix@, policy.metric, policy.type_two);
                    if lists_prefix(before, route.prefix@) {
                        let k = choose|k: int| 0 <= k < before.len() && (#[trigger] before[k]).0 == route.prefix@;
                        assert(before.contains(before[k]));
                        assert(before[k] == n);
                    }
                    assert forall|x: ((u32, u8), u32, bool)|
                        #[trigger] externals_view(out@).contains(x) <==> (x.1 == policy.metric && x.2
                            == policy.type_two && x.0.1 != 0 && exists|k: int|
                            0 <= k < i + 1 && (#[trigger] routes@[k]).source == RouteSource::Static
                                && routes@[k].prefix@ == x.0) by {
                        if x == n {
                            assert(routes@[i as int] == route);
                        }
                        if x.1 == policy.metric && x.2 == policy.type_two && x.0.1 != 0 && exists|k: int|
                            0 <= k < i + 1 && (#[trigger] routes@[k]).source == RouteSource::Static
                                && routes@[k].prefix@ == x.0 {
                            let k = choose|k: int|
                                0 <= k < i + 1 && (#[trigger] routes@[k]).source == RouteSource::Static
                                    && routes@[k].prefix@ == x.0;
                            if k == i {
                                assert(x == n);
                            }
                        }
                    }
                }
            } else {
                proof {
                    assert forall|x: ((u32, u8), u32, bool)|
                        #[trigger] externals_view(out@).contains(x) <==> (x.1 == policy.metric && x.2
                            == policy.type_two && x.0.1 != 0 && exists|k: int|
                            0 <= k < i + 1 && (#[trigger] routes@[k]).source == RouteSource::Static
                                && routes@[k].prefix@ == x.0) by {
                        if x.1 == policy.metric && x.2 == policy.type_two && x.0.1 != 0 && exists|k: int|
                            0 <= k < i + 1 && (#[trigger] routes@[k]).source == RouteSource::Static
                                && routes@[k].prefix@ == x.0 {
                            let k = choose|k: int|
                                0 <= k < i + 1 && (#[trigger] routes@[k]).source == RouteSource::Static
                                    && routes@[k].prefix@ == x.0;
                            assert(k != i);
                        }
                    }
                }
            }
            i = i + 1;
        }
    }
    let ghost statics = externals_view(out@);
    assert forall|x: ((u32, u8), u32, bool)| #[trigger] statics.contains(x) implies x.0.1 != 0 by {}
    let wanted = match default {
        Some(d) => d.always || find_default_route(routes),
        None => false,
    };
    if wanted {
        let d = default.unwrap();
        assert(0u32 & 0u32 == 0u32) by (bit_vector);
        let everything = Ipv4Network::new(Ipv4Addr(0), 0).unwrap();
        put_external(&mut out, (everything, d.metric, d.type_two));
        proof {
            assert(!lists_prefix(statics, (0u32, 0u8))) by {
                if lists_prefix(statics, (0u32, 0u8)) {
                    let k = choose|k: int| 0 <= k < statics.len() && (#[trigger] statics[k]).0 == (0u32, 0u8);
                    assert(statics.contains(statics[k]));
                }
            }
        }
    }
    out
}

/// The keyed AS-external LSAs of router `self_id` with routes `routes` under the
/// redistribution and default policies: those of the external prefixes in advertising
/// order, under distinct keys in the backbone.
pub fn ospf_external_lsas(
    self_id: u32,
    routes: &[Route],
    redistribute: Option<OspfRedistribute>,
    default: Option<OspfDefaultRoute>,
) -> (r: Vec<((u32, u8, u32, u32), OspfLsa)>)
    requires
        redistribute matches Some(p) ==> p.metric < OSPF_EXTERNAL_METRIC_LIMIT,
        default matches Some(d) ==> d.metric < OSPF_EXTERNAL_METRIC_LIMIT,
    ensures
        exists|es: Seq<((u32, u8), u32, bool)>|
            {
                &&& externals_sorted(es)
                &&& forall|x: ((u32, u8), u32, bool)| #[trigger] es.contains(x) <==> external_entry(routes@, redistribute, default, x)
                &&& keyed_view(r@) == external_lsas_spec(es, self_id)
            },
        desired_wf(keyed_view(r@)),
{
    let externals = ospf_external_prefixes(routes, redistribute, default);
    assert forall|i: int| 0 <= i < externals@.len() implies (#[trigger] externals@[i]).1 < OSPF_EXTERNAL_METRIC_LIMIT by {
        assert(externals_view(externals@).contains(externals_view(externals@)[i]));
    }
    let r = external_lsas(self_id, &externals);
    proof {
        lemma_external_lsas_wf(externals_view(externals@), self_id);
    }
    r
}

proof fn lemma_first_free(taken: Seq<u32>, from: int, to: int)
    ensures
        first_free(taken, from, to) matches Some(a) ==> !taken.contains(a),
    decreases to + 1 - from,
{
    if from <= to && taken.contains(from as u32) {
        lemma_first_free(taken, from + 1, to);
    }
}

/// The AS-external LSAs hold distinct keys, each LSA under its own key in the backbone.
pub proof fn lemma_external_lsas_wf(es: Seq<((u32, u8), u32, bool)>, self_id: u32)
    ensures
        desired_wf(external_lsas_spec(es, self_id)),
    decreases es.len(),
{
    if es.len() > 0 {
        lemma_external_lsas_wf(es.drop_last(), self_id);
        let prev = external_lsas_spec(es.drop_last(), self_id);
        let e = es.last();
        let taken = held_ids(prev);
        let last = if e.0.0 | !mask_bits(e.0.1) < e.0.0 + taken.len() {
            (e.0.0 | !mask_bits(e.0.1)) as int
        } else {
            e.0.0 + taken.len()
        };
        lemma_first_free(taken, e.0.0 as int, last);
        match chosen_id(taken, e.0.0, e.0.0 | !mask_bits(e.0.1)) {
            Some(id) => {
                assert(!taken.contains(id));
                let key = (0u32, 5u8, id, self_id);
                let all = external_lsas_spec(es, self_id);
                assert(all == prev.push((key, external_lsa(e, id, self_id))));
                assert forall|j: int| 0 <= j < prev.len() implies (#[trigger] prev[j]).0 != key by {
                    assert(taken[j] == prev[j].1.link_state_id);
                    assert(taken.contains(taken[j]));
                }
                assert forall|a: int, b: int| 0 <= a < b < all.len() implies #[trigger] all[a].0 != #[trigger] all[b].0 by {
                    if b == prev.len() {
                        assert(all[a] == prev[a]);
                    } else {
                        assert(all[a] == prev[a] && all[b] == prev[b]);
                    }
                }
                assert forall|j: int| 0 <= j < all.len() implies (#[trigger] all[j]).0 == lsa_key(all[j].0.0, all[j].1) by {
                    if j < prev.len() {
                        assert(all[j] == prev[j]);
                    }
                }
            },
            None => {},
        }
    }
}

} // verus!
