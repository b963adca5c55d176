//! What a host learns from IPv6 Router Advertisements: its default routers, the on-link
//! prefixes, the link-layer address of the router, and how the lifetime of an address it
//! formed by stateless autoconfiguration is extended (the two-hour rule).
use crate::ipv6::{link_local, Ipv6Addr, Ipv6Network};
use crate::keyed::{has_key, key_index, keys_unique, lemma_key_index, lemma_put_unique, lemma_without_unique, put, without};
use crate::mac::MacAddress;
use crate::neighbor::{after, learn_spec, Ipv6Neighbor, NeighborCache};
use crate::routing::InterfaceId;
use vstd::prelude::*;

verus! {

/// The most default routers a host keeps.
pub const DEFAULT_ROUTER_LIMIT: usize = 256;

/// The most on-link prefixes a host keeps.
pub const PREFIX_LIMIT: usize = 4096;

/// The two hours, in seconds, below which an advertisement cannot shorten the remaining
/// valid lifetime of an autoconfigured address.
pub const TWO_HOURS: u64 = 7200;

/// A Prefix Information option.
#[derive(Debug, Clone, Copy, PartialEq, Eq)]
pub struct PrefixInformation {
    pub prefix: Ipv6Network,
    pub on_link: bool,
    pub autonomous: bool,
    pub valid_lifetime: u32,
    pub preferred_lifetime: u32,
}

/// An option of a Router Advertisement that a host acts on.
#[derive(Debug, Clone, Copy, PartialEq, Eq)]
pub enum RaOption {
    SourceLinkLayer(MacAddress),
    Prefix(PrefixInformation),
}

/// The default routers of a host, each with the time its lifetime ends, and its on-link
/// prefixes, each with the time it stops being on-link (microseconds).
#[derive(Debug)]
pub struct RouterState {
    routers: Vec<((InterfaceId, Ipv6Addr), u64)>,
    prefixes: Vec<((InterfaceId, (u128, u8)), u64)>,
}

/// Router state as mathematical values.
pub struct RouterStateView {
    pub routers: Seq<((InterfaceId, Ipv6Addr), u64)>,
    pub prefixes: Seq<((InterfaceId, (u128, u8)), u64)>,
}

impl View for RouterState {
    type V = RouterStateView;

    closed spec fn view(&self) -> RouterStateView {
        RouterStateView { routers: self.routers@, prefixes: self.prefixes@ }
    }
}

/// Router state with each router and each prefix once.
pub open spec fn router_state_wf(v: RouterStateView) -> bool {
    keys_unique(v.routers) && keys_unique(v.prefixes)
}

/// The end of a lifetime of `seconds` from `now`; the all-ones lifetime never ends.
pub open spec fn lifetime(now: u64, seconds: u32) -> Option<u64> {
    if seconds == 0xffff_ffff {
        None
    } else {
        Some(after(now, seconds as u64))
    }
}

/// The default routers after an advertisement from `source` on `id` with router lifetime
/// `seconds`: zero removes the router; otherwise it is kept until its lifetime ends, a new
/// router only while fewer than the limit are kept.
pub open spec fn routers_spec(
    r: Seq<((InterfaceId, Ipv6Addr), u64)>,
    id: InterfaceId,
    source: Ipv6Addr,
    seconds: u16,
    now: u64,
) -> Seq<((InterfaceId, Ipv6Addr), u64)> {
    let key = (id, source);
    if seconds == 0 {
        without(r, key)
    } else if r.len() < DEFAULT_ROUTER_LIMIT || has_key(r, key) {
        put(r, key, after(now, seconds as u64))
    } else {
        r
    }
}

/// Whether a prefix option is ignored: a link-local or multicast prefix, or a preferred
/// lifetime above the valid lifetime.
pub open spec fn prefix_ignored(info: PrefixInformation) -> bool {
    link_local(info.prefix@.0) || info.prefix@.0 >= 0xff00_0000_0000_0000_0000_0000_0000_0000u128
        || info.preferred_lifetime > info.valid_lifetime
}

/// The on-link prefixes after prefix option `info` on `id`: a zero valid lifetime removes
/// the prefix; otherwise it is on-link until its lifetime ends, a new prefix only while
/// fewer than the limit are kept.
pub open spec fn prefixes_spec(
    p: Seq<((InterfaceId, (u128, u8)), u64)>,
    id: InterfaceId,
    info: PrefixInformation,
    now: u64,
) -> Seq<((InterfaceId, (u128, u8)), u64)> {
    let key = (id, info.prefix@);
    if prefix_ignored(info) || !info.on_link {
        p
    } else if info.valid_lifetime == 0 {
        without(p, key)
    } else if p.len() < PREFIX_LIMIT || has_key(p, key) {
        put(
            p,
            key,
            match lifetime(now, info.valid_lifetime) {
                Some(t) => t,
                None => u64::MAX,
            },
        )
    } else {
        p
    }
}

/// The router state and neighbor cache after the options `options` of an advertisement
/// from `source` on `id`, in order.
pub open spec fn options_spec(
    v: RouterStateView,
    c: Seq<((InterfaceId, Ipv6Addr), Ipv6Neighbor)>,
    id: InterfaceId,
    source: Ipv6Addr,
    options: Seq<RaOption>,
    now: u64,
) -> (RouterStateView, Seq<((InterfaceId, Ipv6Addr), Ipv6Neighbor)>)
    decreases options.len(),
{
    if options.len() == 0 {
        (v, c)
    } else {
        let (v2, c2) = options_spec(v, c, id, source, options.drop_last(), now);
        match options.last() {
            RaOption::SourceLinkLayer(mac) => (v2, learn_spec(c2, id, source, mac, true, now)),
            RaOption::Prefix(info) => (RouterStateView { prefixes: prefixes_spec(v2.prefixes, id, info, now), ..v2 }, c2),
        }
    }
}

/// The router state and neighbor cache after a Router Advertisement from `source` on `id`
/// with router lifetime `seconds` and `options`: a device that forwards IPv6 ignores it.
pub open spec fn advertisement_spec(
    v: RouterStateView,
    c: Seq<((InterfaceId, Ipv6Addr), Ipv6Neighbor)>,
    forwarding: bool,
    id: InterfaceId,
    source: Ipv6Addr,
    seconds: u16,
    options: Seq<RaOption>,
    now: u64,
) -> (RouterStateView, Seq<((InterfaceId, Ipv6Addr), Ipv6Neighbor)>) {
    if forwarding {
        (v, c)
    } else {
        options_spec(RouterStateView { routers: routers_spec(v.routers, id, source, seconds, now), ..v }, c, id, source, options, now)
    }
}

/// Whole seconds from `now` until `until`, zero once it has passed.
pub open spec fn seconds_until(until: u64, now: u64) -> u64 {
    if until >= now {
        ((until - now) / 1_000_000) as u64
    } else {
        0
    }
}

/// The new end of the valid lifetime of an autoconfigured address that ends at `valid_until`
/// (none: never), after an advertisement of `valid_lifetime` seconds at `now`: a lifetime
/// above two hours, or above what remains, is taken; otherwise what remains is cut to two
/// hours when it is longer, and kept as it is when it is not.
pub open spec fn two_hour_rule(valid_until: Option<u64>, valid_lifetime: u32, now: u64) -> Option<u64> {
    let remaining: u64 = match valid_until {
        Some(t) => seconds_until(t, now),
        None => u64::MAX,
    };
    if valid_lifetime > TWO_HOURS || valid_lifetime > remaining {
        lifetime(now, valid_lifetime)
    } else if remaining > TWO_HOURS {
        Some(after(now, TWO_HOURS))
    } else {
        valid_until
    }
}

/// The end of a lifetime of `seconds` from `now`, computed.
fn lifetime_exec(now: u64, seconds: u32) -> (r: Option<u64>)
    ensures
        r == lifetime(now, seconds),
{
    if seconds == 0xffff_ffff {
        None
    } else {
        Some(now.saturating_add(seconds as u64 * 1_000_000))
    }
}

/// The new end of the valid lifetime of an autoconfigured address under the two-hour rule.
pub fn slaac_valid_until(valid_until: Option<u64>, valid_lifetime: u32, now: u64) -> (r: Option<u64>)
    ensures
        r == two_hour_rule(valid_until, valid_lifetime, now),
{
    let remaining: u64 = match valid_until {
        Some(t) => if t >= now {
            (t - now) / 1_000_000
        } else {
            0
        },
        None => u64::MAX,
    };
    if valid_lifetime as u64 > TWO_HOURS || valid_lifetime as u64 > remaining {
        lifetime_exec(now, valid_lifetime)
    } else if remaining > TWO_HOURS {
        Some(now.saturating_add(TWO_HOURS * 1_000_000))
    } else {
        valid_until
    }
}

/// Where router `key` is.
fn find_key_router(s: &Vec<((InterfaceId, Ipv6Addr), u64)>, key: (InterfaceId, Ipv6Addr)) -> (r: Option<usize>)
    requires
        keys_unique(s@),
    ensures
        match r {
            Some(i) => i < s@.len() && has_key(s@, key) && key_index(s@, key) == i,
            None => !has_key(s@, key),
        },
{
    let mut i: usize = 0;
    while i < s.len()
        invariant
            keys_unique(s@),
            i <= s@.len(),
            forall|j: int| 0 <= j < i ==> #[trigger] s@[j].0 != key,
        decreases s@.len() - i,
    {
        let k = s[i].0;
        if k.0.0 == key.0.0 && k.1.0 == key.1.0 {
            proof {
                lemma_key_index(s@, i as int);
            }
            return Some(i);
        }
        i = i + 1;
    }
    None
}

/// Where prefix `key` is.
fn find_key_prefix(s: &Vec<((InterfaceId, (u128, u8)), u64)>, key: (InterfaceId, (u128, u8))) -> (r: Option<usize>)
    requires
        keys_unique(s@),
    ensures
        match r {
            Some(i) => i < s@.len() && has_key(s@, key) && key_index(s@, key) == i,
            None => !has_key(s@, key),
        },
{
    let mut i: usize = 0;
    while i < s.len()
        invariant
            keys_unique(s@),
            i <= s@.len(),
            forall|j: int| 0 <= j < i ==> #[trigger] s@[j].0 != key,
        decreases s@.len() - i,
    {
        let k = s[i].0;
        if k.0.0 == key.0.0 && (k.1).0 == (key.1).0 && (k.1).1 == (key.1).1 {
            proof {
                lemma_key_index(s@, i as int);
            }
            return Some(i);
        }
        i = i + 1;
    }
    None
}

impl RouterState {
    /// No routers and no prefixes.
    pub fn new() -> (r: RouterState)
        ensures
            r@.routers == Seq::<((InterfaceId, Ipv6Addr), u64)>::empty(),
            r@.prefixes == Seq::<((InterfaceId, (u128, u8)), u64)>::empty(),
    {
        let r = RouterState { routers: Vec::new(), prefixes: Vec::new() };
        assert(r@.routers =~= Seq::<((InterfaceId, Ipv6Addr), u64)>::empty());
        assert(r@.prefixes =~= Seq::<((InterfaceId, (u128, u8)), u64)>::empty());
        r
    }

    /// The default routers, each with the time its lifetime ends.
    pub fn routers(&self) -> (r: &[((InterfaceId, Ipv6Addr), u64)])
        ensures
            r@ == self@.routers,
    {
        self.routers.as_slice()
    }

    /// The on-link prefixes, each with the time it stops being on-link.
    pub fn prefixes(&self) -> (r: &[((InterfaceId, (u128, u8)), u64)])
        ensures
            r@ == self@.prefixes,
    {
        self.prefixes.as_slice()
    }

    fn update_router(&mut self, id: InterfaceId, source: Ipv6Addr, seconds: u16, now: u64)
        requires
            router_state_wf(old(self)@),
        ensures
            router_state_wf(final(self)@),
            final(self)@ == (RouterStateView { routers: routers_spec(old(self)@.routers, id, source, seconds, now), ..old(self)@ }),
    {
        let key = (id, source);
        let ghost r0 = self@.routers;
        proof {
            lemma_without_unique(r0, key);
            lemma_put_unique(r0, key, after(now, seconds as u64));
        }
        let found = find_key_router(&self.routers, key);
        if seconds == 0 {
            if let Some(j) = found {
                self.routers.remove(j);
                assert(self@.routers =~= r0.remove(j as int));
            }
        } else {
            let until = now.saturating_add(seconds as u64 * 1_000_000);
            match found {
                Some(j) => {
                    self.routers.set(j, (key, until));
                    assert(self@.routers =~= r0.update(j as int, (key, until)));
                },
                None => {
                    if self.routers.len() < DEFAULT_ROUTER_LIMIT {
                        self.routers.push((key, until));
                    }
                },
            }
        }
    }

    fn update_prefix(&mut self, id: InterfaceId, info: PrefixInformation, now: u64)
        requires
            router_state_wf(old(self)@),
        ensures
            router_state_wf(final(self)@),
            final(self)@ == (RouterStateView { prefixes: prefixes_spec(old(self)@.prefixes, id, info, now), ..old(self)@ }),
    {
        let address = info.prefix.address();
        let len = info.prefix.prefix_len();
        if address.is_unicast_link_local() || address.0 >= 0xff00_0000_0000_0000_0000_0000_0000_0000u128
            || info.preferred_lifetime > info.valid_lifetime || !info.on_link {
            return;
        }
        let key = (id, (address.0, len));
        assert(key == (id, info.prefix@));
        let until = match lifetime_exec(now, info.valid_lifetime) {
            Some(t) => t,
            None => u64::MAX,
        };
        let ghost p0 = self@.prefixes;
        proof {
            lemma_without_unique(p0, key);
            lemma_put_unique(p0, key, until);
        }
        let found = find_key_prefix(&self.prefixes, key);
        if info.valid_lifetime == 0 {
            if let Some(j) = found {
                self.prefixes.remove(j);
                assert(self@.prefixes =~= p0.remove(j as int));
            }
        } else {
            match found {
                Some(j) => {
                    self.prefixes.set(j, (key, until));
                    assert(self@.prefixes =~= p0.update(j as int, (key, until)));
                },
                None => {
                    if self.prefixes.len() < PREFIX_LIMIT {
                        self.prefixes.push((key, until));
                    }
                },
            }
        }
    }

    /// Act on a Router Advertisement from `source` on interface `id` with router lifetime
    /// `seconds` and `options`, learning the router's link-layer address into `cache`; a
    /// device that forwards IPv6 (`forwarding`) ignores it.
    pub fn receive_advertisement(
        &mut self,
        cache: &mut NeighborCache,
        forwarding: bool,
        id: InterfaceId,
        source: Ipv6Addr,
        seconds: u16,
        options: &Vec<RaOption>,
        now: u64,
    )
        requires
            router_state_wf(old(self)@),
            keys_unique(old(cache)@),
        ensures
            router_state_wf(final(self)@),
            keys_unique(final(cache)@),
            (final(self)@, final(cache)@) == advertisement_spec(old(self)@, old(cache)@, forwarding, id, source, seconds, options@, now),
    {
        if forwarding {
            return;
        }
        self.update_router(id, source, seconds, now);
        let ghost v1 = self@;
        let ghost c1 = cache@;
        let mut i: usize = 0;
        while i < options.len()
            invariant
                i <= options@.len(),
                router_state_wf(self@),
                keys_unique(cache@),
                (self@, cache@) == options_spec(v1, c1, id, source, options@.take(i as int), now),
            decreases options@.len() - i,
        {
            proof {
                assert(options@.take(i + 1).drop_last() =~= options@.take(i as int));
            }
            match options[i] {
                RaOption::SourceLinkLayer(mac) => {
                    cache.learn_neighbor(id, source, mac, true, now);
                },
                RaOption::Prefix(info) => {
                    self.update_prefix(id, info, now);
                },
            }
            i = i + 1;
        }
        proof {
            assert(options@.take(options@.len() as int) =~= options@);
        }
    }
}

/// The limits: an advertisement never takes the default routers or the on-link prefixes
/// beyond their limits when they were within them.
pub proof fn lemma_router_limits(
    v: RouterStateView,
    id: InterfaceId,
    source: Ipv6Addr,
    seconds: u16,
    info: PrefixInformation,
    now: u64,
)
    requires
        v.routers.len() <= DEFAULT_ROUTER_LIMIT,
        v.prefixes.len() <= PREFIX_LIMIT,
    ensures
        routers_spec(v.routers, id, source, seconds, now).len() <= DEFAULT_ROUTER_LIMIT,
        prefixes_spec(v.prefixes, id, info, now).len() <= PREFIX_LIMIT,
{
}

/// The two-hour rule: after an advertisement, an autoconfigured address keeps at least the
/// smaller of what remained of its valid lifetime and two hours, and takes any longer
/// lifetime advertised (while the clock is far from its end).
pub proof fn lemma_two_hour_rule(valid_until: Option<u64>, valid_lifetime: u32, now: u64)
    requires
        now <= u64::MAX - 0x1_0000_0000 * 1_000_000,
    ensures
        ({
            let remaining: u64 = match valid_until {
                Some(t) => seconds_until(t, now),
                None => u64::MAX,
            };
            match two_hour_rule(valid_until, valid_lifetime, now) {
                Some(t) => seconds_until(t, now) >= if remaining < TWO_HOURS {
                    remaining
                } else {
                    TWO_HOURS
                } && (valid_lifetime > remaining ==> seconds_until(t, now) == valid_lifetime),
                None => valid_lifetime == 0xffff_ffff || (valid_until is None && valid_lifetime <= TWO_HOURS),
            }
        }),
{
    let x = valid_lifetime as u64;
    assert(((now + x * 1_000_000 - now) / 1_000_000) as u64 == x) by (nonlinear_arith)
        requires
            x <= 0xffff_ffff,
    ;
    assert(((now + TWO_HOURS * 1_000_000 - now) / 1_000_000) as u64 == TWO_HOURS) by (nonlinear_arith);
}

} // verus!
