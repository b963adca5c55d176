//! The prefixes an OSPFv3 router advertises. An interface offers each of its preferred or
//! deprecated addresses that is not link-local: a loopback as a host prefix with the
//! local-address option and no metric, another interface as its network with the
//! interface's metric. A designated router advertises for its network the prefixes of the
//! network's members in prefix order, each prefix once, with the lowest options offered for
//! it (the first such when several offer them).
use crate::ipv6::{link_local, prefix_network, Ipv6Addr, Ipv6Network};
use crate::nd::{Ipv6AddressEntry, Ipv6AddressState};
use vstd::prelude::*;

verus! {

/// A prefix in an OSPFv3 LSA: the prefix, its options and its metric.
#[derive(Debug, Clone, Copy, PartialEq, Eq)]
pub struct Ospfv3Prefix {
    pub prefix: Ipv6Network,
    pub options: u8,
    pub metric: u16,
}

impl View for Ospfv3Prefix {
    type V = ((u128, u8), u8, u16);

    open spec fn view(&self) -> ((u128, u8), u8, u16) {
        (self.prefix@, self.options, self.metric)
    }
}

/// Advertised prefixes as mathematical values.
pub open spec fn prefixes_view(s: Seq<Ospfv3Prefix>) -> Seq<((u128, u8), u8, u16)> {
    s.map_values(|p: Ospfv3Prefix| p@)
}

/// Whether an address of an interface is advertised: it is preferred or deprecated and not
/// link-local.
pub open spec fn advertised_address(e: (u128, Ipv6AddressEntry)) -> bool {
    (e.1.state == Ipv6AddressState::Preferred || e.1.state == Ipv6AddressState::Deprecated) && !link_local(e.0)
}

/// The prefix an advertised address gives: on a loopback the host prefix with the
/// local-address option and no metric, else its network with `metric`.
pub open spec fn address_prefix(e: (u128, Ipv6AddressEntry), loopback: bool, metric: u16) -> ((u128, u8), u8, u16) {
    if loopback {
        ((prefix_network(e.0, 128), 128u8), 2u8, 0u16)
    } else {
        ((prefix_network(e.0, e.1.prefix_len), e.1.prefix_len), 0u8, metric)
    }
}

/// The prefixes the addresses `a` of an interface give, in order.
pub open spec fn interface_prefixes(a: Seq<(u128, Ipv6AddressEntry)>, loopback: bool, metric: u16) -> Seq<
    ((u128, u8), u8, u16),
>
    decreases a.len(),
{
    if a.len() == 0 {
        Seq::empty()
    } else {
        let rest = interface_prefixes(a.drop_last(), loopback, metric);
        if advertised_address(a.last()) {
            rest.push(address_prefix(a.last(), loopback, metric))
        } else {
            rest
        }
    }
}

/// The prefixes an interface with addresses `addresses` advertises, on a loopback or not,
/// with `metric`.
pub fn ospfv3_prefixes(addresses: &[(u128, Ipv6AddressEntry)], loopback: bool, metric: u16) -> (r: Vec<Ospfv3Prefix>)
    requires
        forall|i: int| 0 <= i < addresses@.len() ==> (#[trigger] addresses@[i]).1.prefix_len <= 128,
    ensures
        prefixes_view(r@) == interface_prefixes(addresses@, loopback, metric),
{
    let mut out: Vec<Ospfv3Prefix> = Vec::new();
    let mut i: usize = 0;
    while i < addresses.len()
        invariant
            i <= addresses@.len(),
            forall|j: int| 0 <= j < addresses@.len() ==> (#[trigger] addresses@[j]).1.prefix_len <= 128,
            prefixes_view(out@) == interface_prefixes(addresses@.take(i as int), loopback, metric),
        decreases addresses@.len() - i,
    {
        let (address, entry) = addresses[i];
        proof {
            assert(addresses@.take(i + 1).drop_last() =~= addresses@.take(i as int));
            assert(addresses@.take(i + 1).last() == addresses@[i as int]);
        }
        if (entry.state == Ipv6AddressState::Preferred || entry.state == Ipv6AddressState::Deprecated)
            && !Ipv6Addr(address).is_unicast_link_local() {
            let ghost before = prefixes_view(out@);
            let length: u8 = if loopback { 128 } else { entry.prefix_len };
            let prefix = Ipv6Network::new(Ipv6Addr(address), length).unwrap();
            let p = Ospfv3Prefix {
                prefix,
                options: if loopback { 2 } else { 0 },
                metric: if loopback { 0 } else { metric },
            };
            out.push(p);
            proof {
                assert(prefixes_view(out@) =~= before.push(address_prefix(addresses@[i as int], loopback, metric)));
            }
        }
        i = i + 1;
    }
    proof {
        assert(addresses@.take(addresses@.len() as int) =~= addresses@);
    }
    out
}

/// Whether prefix `a` comes before prefix `b`: by address, then by length.
pub open spec fn prefix_before(a: (u128, u8), b: (u128, u8)) -> bool {
    a.0 < b.0 || (a.0 == b.0 && a.1 < b.1)
}

/// Advertised prefixes in prefix order, each prefix once.
pub open spec fn prefixes_sorted(s: Seq<((u128, u8), u8, u16)>) -> bool {
    forall|i: int, j: int| 0 <= i < j < s.len() ==> prefix_before(#[trigger] s[i].0, #[trigger] s[j].0)
}

/// What the offers `s` advertise for prefix `p`: the first offer with the lowest options
/// among those for `p`, if any.
pub open spec fn best_offer(s: Seq<((u128, u8), u8, u16)>, p: (u128, u8)) -> Option<((u128, u8), u8, u16)>
    decreases s.len(),
{
    if s.len() == 0 {
        None
    } else {
        let before = best_offer(s.drop_last(), p);
        let e = s.last();
        if e.0 != p {
            before
        } else {
            match before {
                Some(b) => if e.1 < b.1 {
                    Some(e)
                } else {
                    Some(b)
                },
                None => Some(e),
            }
        }
    }
}

/// The prefixes a designated router advertises for its network, from the offers `offers`
/// (its own, then those of the other members): in prefix order, for each prefix offered
/// the first offer with the lowest options.
pub fn ospfv3_network_prefixes(offers: &Vec<Ospfv3Prefix>) -> (r: Vec<Ospfv3Prefix>)
    ensures
        prefixes_sorted(prefixes_view(r@)),
        forall|x: ((u128, u8), u8, u16)|
            #[trigger] prefixes_view(r@).contains(x) <==> best_offer(prefixes_view(offers@), x.0) == Some(x),
{
    let ghost s = prefixes_view(offers@);
    let mut out: Vec<Ospfv3Prefix> = Vec::new();
    let mut n: usize = 0;
    while n < offers.len()
        invariant
            n <= offers@.len(),
            s == prefixes_view(offers@),
            prefixes_sorted(prefixes_view(out@)),
            forall|x: ((u128, u8), u8, u16)|
                #[trigger] prefixes_view(out@).contains(x) <==> best_offer(s.take(n as int), x.0) == Some(x),
        decreases offers@.len() - n,
    {
        let e = offers[n];
        put_offer(&mut out, e, Ghost(s.take(n as int)));
        proof {
            assert(s.take(n + 1) =~= s.take(n as int).push(e@));
        }
        n = n + 1;
    }
    proof {
        assert(s.take(offers@.len() as int) =~= s);
    }
    out
}

/// Take offer `e` after the offers `seen` into the prefixes `v` that advertise them.
fn put_offer(v: &mut Vec<Ospfv3Prefix>, e: Ospfv3Prefix, Ghost(seen): Ghost<Seq<((u128, u8), u8, u16)>>)
    requires
        prefixes_sorted(prefixes_view(old(v)@)),
        forall|x: ((u128, u8), u8, u16)|
            #[trigger] prefixes_view(old(v)@).contains(x) <==> best_offer(seen, x.0) == Some(x),
    ensures
        prefixes_sorted(prefixes_view(final(v)@)),
        forall|x: ((u128, u8), u8, u16)|
            #[trigger] prefixes_view(final(v)@).contains(x) <==> best_offer(seen.push(e@), x.0) == Some(x),
{
    let ghost s = prefixes_view(v@);
    let ghost p = e.prefix@;
    let ghost all = seen.push(e@);
    proof {
        assert(all.drop_last() =~= seen);
    }
    let pa = e.prefix.address().0;
    let pl = e.prefix.prefix_len();
    let mut i: usize = 0;
    while i < v.len()
        invariant
            i <= v@.len(),
            s == prefixes_view(v@),
            p == e.prefix@,
            pa == p.0 && pl == p.1,
            forall|j: int| 0 <= j < i ==> prefix_before(#[trigger] s[j].0, p),
        ensures
            i <= v@.len(),
            s == prefixes_view(v@),
            forall|j: int| 0 <= j < i ==> prefix_before(#[trigger] s[j].0, p),
            i < v@.len() ==> prefix_before(p, s[i as int].0) || s[i as int].0 == p,
        decreases v@.len() - i,
    {
        let qa = v[i].prefix.address().0;
        let ql = v[i].prefix.prefix_len();
        assert(s[i as int].0 == (qa, ql));
        if qa > pa || (qa == pa && ql >= pl) {
            break;
        }
        i = i + 1;
    }
    if i < v.len() && v[i].prefix.address().0 == pa && v[i].prefix.prefix_len() == pl {
        // The prefix is advertised already: the offer replaces it when its options are lower.
        let old_entry = v[i];
        proof {
            assert(s[i as int].0 == p);
            assert(s.contains(s[i as int]));
            assert(best_offer(seen, p) == Some(s[i as int]));
        }
        if e.options < old_entry.options {
            v.set(i, e);
        }
        proof {
            let t = prefixes_view(v@);
            assert forall|a: int, b: int| 0 <= a < b < t.len() implies prefix_before(#[trigger] t[a].0, #[trigger] t[b].0) by {
                assert(t[a].0 == s[a].0 && t[b].0 == s[b].0);
            }
            assert forall|x: ((u128, u8), u8, u16)| #[trigger] t.contains(x) <==> best_offer(all, x.0) == Some(x) by {
                if x.0 != p {
                    assert(best_offer(all, x.0) == best_offer(seen, x.0));
                    if t.contains(x) {
                        let k = choose|k: int| 0 <= k < t.len() && t[k] == x;
                        assert(k != i);
                        assert(s[k] == x);
                        assert(s.contains(x));
                    }
                    if s.contains(x) {
                        let k = choose|k: int| 0 <= k < s.len() && s[k] == x;
                        assert(k != i);
                        assert(t[k] == x);
                    }
                } else {
                    if t.contains(x) {
                        let k = choose|k: int| 0 <= k < t.len() && t[k] == x;
                        if k != i {
                            if k < i {
                                assert(prefix_before(s[k].0, p));
                            } else {
                                assert(prefix_before(s[i as int].0, s[k].0));
                            }
                        }
                    }
                    assert(best_offer(all, p) is Some);
                    assert(t[i as int] == best_offer(all, p).unwrap());
                    assert(t.contains(t[i as int]));
                }
            }
        }
        return;
    }
    assert(best_offer(seen, p) is None) by {
        if best_offer(seen, p) is Some {
            let x = best_offer(seen, p).unwrap();
            lemma_best_offer_prefix(seen, p);
            assert(s.contains(x));
            let k = choose|k: int| 0 <= k < s.len() && s[k] == x;
            if k < i {
                assert(prefix_before(s[k].0, p));
            } else {
                assert(prefix_before(p, s[i as int].0));
                if k > i {
                    assert(prefix_before(s[i as int].0, s[k].0));
                }
            }
        }
    }
    v.insert(i, e);
    proof {
        let t = prefixes_view(v@);
        assert(t =~= s.insert(i as int, e@));
        assert forall|a: int, b: int| 0 <= a < b < t.len() implies prefix_before(#[trigger] t[a].0, #[trigger] t[b].0) by {
            if b < i {
            } else if a < i && b == i {
            } else if a < i {
                assert(prefix_before(s[a].0, p));
                assert(prefix_before(p, s[i as int].0));
                assert(t[b] == s[b - 1]);
                if b - 1 > i {
                    assert(prefix_before(s[i as int].0, s[b - 1].0));
                }
            } else if a == i {
                assert(t[b] == s[b - 1]);
                assert(prefix_before(p, s[i as int].0));
                if b - 1 > i {
                    assert(prefix_before(s[i as int].0, s[b - 1].0));
                }
            } else {
                assert(t[a] == s[a - 1] && t[b] == s[b - 1]);
            }
        }
        assert forall|x: ((u128, u8), u8, u16)| #[trigger] t.contains(x) <==> best_offer(all, x.0) == Some(x) by {
            if x.0 != p {
                assert(best_offer(all, x.0) == best_offer(seen, x.0));
                if t.contains(x) {
                    let k = choose|k: int| 0 <= k < t.len() && t[k] == x;
                    assert(k != i);
                    if k < i {
                        assert(s[k] == x);
                    } else {
                        assert(s[k - 1] == x);
                    }
                    assert(s.contains(x));
                }
                if s.contains(x) {
                    let k = choose|k: int| 0 <= k < s.len() && s[k] == x;
                    if k < i {
                        assert(t[k] == x);
                    } else {
                        assert(t[k + 1] == x);
                    }
                }
            } else {
                assert(best_offer(all, p) == Some(e@));
                if t.contains(x) {
                    let k = choose|k: int| 0 <= k < t.len() && t[k] == x;
                    if k < i {
                        assert(prefix_before(s[k].0, p));
                    } else if k > i {
                        assert(t[k] == s[k - 1]);
                        assert(prefix_before(p, s[i as int].0));
                        if k - 1 > i {
                            assert(prefix_before(s[i as int].0, s[k - 1].0));
                        }
                    }
                }
                if x == e@ {
                    assert(t[i as int] == x);
                }
            }
        }
    }
}

/// What the offers advertise for a prefix is one of those offers, for that prefix.
proof fn lemma_best_offer_prefix(s: Seq<((u128, u8), u8, u16)>, p: (u128, u8))
    ensures
        best_offer(s, p) matches Some(x) ==> x.0 == p && s.contains(x),
    decreases s.len(),
{
    if s.len() > 0 {
        lemma_best_offer_prefix(s.drop_last(), p);
        if best_offer(s.drop_last(), p) is Some {
            let x = best_offer(s.drop_last(), p).unwrap();
            let k = choose|k: int| 0 <= k < s.drop_last().len() && s.drop_last()[k] == x;
            assert(s[k] == x);
        }
        assert(s[s.len() - 1] == s.last());
    }
}

} // verus!
