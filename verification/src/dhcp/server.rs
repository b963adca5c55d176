//! The leases a DHCP server hands out: offers, bindings and quarantined addresses, one of
//! each per key.
use super::{
    choose_dhcp_address, dhcp_choice, lemma_choice_matches, lemma_pool_selected_unique,
    offer_allowed, pool_selected, same_mac, select_dhcp_pool, DhcpPoolConfig, DhcpPoolId,
};
use crate::ipv4::Ipv4Addr;
use crate::keyed::{
    has_key, key_index, kept, keys_unique, lemma_key_index, lemma_kept, lemma_put_holds,
    lemma_put_unique, lemma_value_of, lemma_without_unique, put, value_of, without,
};
use crate::mac::MacAddress;
use vstd::prelude::*;

verus! {

/// How long an offer reserves its address, in microseconds.
pub const DHCP_OFFER_US: u64 = 60_000_000;

/// How long a declined address stays quarantined, in microseconds.
pub const DHCP_CONFLICT_US: u64 = 600_000_000;

/// Largest number of offers and bindings together.
pub const MAX_DHCP_BINDINGS: usize = 8192;

/// Address and options reserved by a DHCP server offer.
#[derive(Debug, Clone, Copy, PartialEq, Eq, Structural)]
pub struct DhcpOffer {
    pub address: Ipv4Addr,
    pub prefix_len: u8,
    pub default_router: Option<Ipv4Addr>,
    pub server_id: Ipv4Addr,
    pub lease_time_seconds: u32,
    pub pool: DhcpPoolId,
    pub expires_at: u64,
}

/// Runtime server binding committed to a client MAC address.
#[derive(Debug, Clone, PartialEq, Eq)]
pub struct DhcpBinding {
    pub address: Ipv4Addr,
    pub client_mac: MacAddress,
    pub pool_name: String,
    pub expires_at: u64,
}

/// The leases of a DHCP server: outstanding offers and committed bindings, one per client
/// hardware address, and declined addresses quarantined until a deadline.
#[derive(Debug)]
pub struct DhcpServer {
    offers: Vec<(MacAddress, DhcpOffer)>,
    bindings: Vec<(MacAddress, DhcpBinding)>,
    conflicts: Vec<(Ipv4Addr, u64)>,
}

/// A DHCP server's leases as a mathematical value.
#[verifier::ext_equal]
pub struct DhcpServerView {
    pub offers: Seq<(MacAddress, DhcpOffer)>,
    pub bindings: Seq<(MacAddress, DhcpBinding)>,
    pub conflicts: Seq<(Ipv4Addr, u64)>,
}

impl View for DhcpServer {
    type V = DhcpServerView;

    closed spec fn view(&self) -> DhcpServerView {
        DhcpServerView {
            offers: self.offers@,
            bindings: self.bindings@,
            conflicts: self.conflicts@,
        }
    }
}

/// A server whose offers, bindings and quarantined addresses have one entry per key.
pub open spec fn dhcp_wf(v: DhcpServerView) -> bool {
    &&& keys_unique(v.offers)
    &&& keys_unique(v.bindings)
    &&& keys_unique(v.conflicts)
}

/// The leases still alive at `now`.
pub open spec fn dhcp_expire_spec(v: DhcpServerView, now: u64) -> DhcpServerView {
    DhcpServerView {
        offers: kept(v.offers, |o: DhcpOffer| o.expires_at > now),
        bindings: kept(v.bindings, |b: DhcpBinding| b.expires_at > now),
        conflicts: kept(v.conflicts, |d: u64| d > now),
    }
}

/// The addresses bound to clients other than `client`, in order.
pub open spec fn bound_to_others(bs: Seq<(MacAddress, DhcpBinding)>, client: MacAddress) -> Seq<Ipv4Addr>
    decreases bs.len(),
{
    if bs.len() == 0 {
        Seq::empty()
    } else {
        let rest = bound_to_others(bs.drop_last(), client);
        if bs.last().0 != client {
            rest.push(bs.last().1.address)
        } else {
            rest
        }
    }
}

/// The addresses offered to clients other than `client`, in order.
pub open spec fn offered_to_others(os: Seq<(MacAddress, DhcpOffer)>, client: MacAddress) -> Seq<Ipv4Addr>
    decreases os.len(),
{
    if os.len() == 0 {
        Seq::empty()
    } else {
        let rest = offered_to_others(os.drop_last(), client);
        if os.last().0 != client {
            rest.push(os.last().1.address)
        } else {
            rest
        }
    }
}

/// The addresses pools reserve for clients other than `client`, in order.
pub open spec fn reserved_for_others(pools: Seq<(DhcpPoolId, DhcpPoolConfig)>, client: MacAddress) -> Seq<Ipv4Addr>
    decreases pools.len(),
{
    if pools.len() == 0 {
        Seq::empty()
    } else {
        let rest = reserved_for_others(pools.drop_last(), client);
        let pool = pools.last().1;
        if pool.hardware_address != Some(client) && pool.reserved_address is Some {
            rest.push(pool.reserved_address->Some_0)
        } else {
            rest
        }
    }
}

/// The quarantined addresses, in order.
pub open spec fn quarantined(cs: Seq<(Ipv4Addr, u64)>) -> Seq<Ipv4Addr>
    decreases cs.len(),
{
    if cs.len() == 0 {
        Seq::empty()
    } else {
        quarantined(cs.drop_last()).push(cs.last().0)
    }
}

/// Every address a new offer to `client` must avoid.
pub open spec fn taken_addresses(
    v: DhcpServerView,
    pools: Seq<(DhcpPoolId, DhcpPoolConfig)>,
    device_addresses: Seq<Ipv4Addr>,
    client: MacAddress,
) -> Seq<Ipv4Addr> {
    bound_to_others(v.bindings, client) + offered_to_others(v.offers, client) + device_addresses
        + reserved_for_others(pools, client) + quarantined(v.conflicts)
}

/// The server's leases and its offer to `client` on `subnet` at `now`, after expiry: the
/// selected pool's outstanding offer to the client is repeated; otherwise, within the
/// capacity (which a returning client is exempt from), the client's previous address from
/// the same pool or another allowed one is offered from `server_id` and reserved for a minute.
pub open spec fn offer_spec(
    v: DhcpServerView,
    pools: Seq<(DhcpPoolId, DhcpPoolConfig)>,
    excluded: Seq<(Ipv4Addr, Ipv4Addr)>,
    device_addresses: Seq<Ipv4Addr>,
    server_id: Ipv4Addr,
    client: MacAddress,
    subnet: Ipv4Addr,
    now: u64,
) -> (DhcpServerView, Option<DhcpOffer>) {
    let e = dhcp_expire_spec(v, now);
    if !exists|i: int| pool_selected(pools, subnet, client, i) {
        (e, None)
    } else {
        let i = choose|i: int| pool_selected(pools, subnet, client, i);
        let id = pools[i].0;
        let pool = pools[i].1;
        let network = pool.network->Some_0;
        if has_key(e.offers, client) && value_of(e.offers, client).pool == id {
            (e, Some(value_of(e.offers, client)))
        } else {
            let previous = if has_key(e.bindings, client) && value_of(e.bindings, client).pool_name@
                == pool.name@ {
                Some(value_of(e.bindings, client).address)
            } else {
                None
            };
            if e.offers.len() + e.bindings.len() >= MAX_DHCP_BINDINGS && previous is None {
                (e, None)
            } else {
                match dhcp_choice(
                    network@,
                    taken_addresses(e, pools, device_addresses, client),
                    pool.default_router,
                    excluded,
                    pool.reserved_address,
                    previous,
                ) {
                    None => (e, None),
                    Some(address) => {
                        let offer = DhcpOffer {
                            address,
                            prefix_len: network@.1,
                            default_router: pool.default_router,
                            server_id,
                            lease_time_seconds: pool.lease_seconds,
                            pool: id,
                            expires_at: if now as int + DHCP_OFFER_US > u64::MAX {
                                u64::MAX
                            } else {
                                (now + DHCP_OFFER_US) as u64
                            },
                        };
                        (DhcpServerView { offers: put(e.offers, client, offer), ..e }, Some(offer))
                    },
                }
            }
        }
    }
}

/// `now + span` microseconds, saturating at the largest time.
pub open spec fn after_us(now: u64, span: int) -> u64 {
    if now + span > u64::MAX {
        u64::MAX
    } else {
        (now + span) as u64
    }
}

/// The server's leases and the committed lease when `client` requests `address` from
/// `server_id` at `now`, after expiry: the outstanding offer for exactly that address and
/// server becomes a binding for the offer's lease time, named after its pool.
pub open spec fn commit_spec(
    v: DhcpServerView,
    pools: Seq<(DhcpPoolId, DhcpPoolConfig)>,
    client: MacAddress,
    address: Ipv4Addr,
    server_id: Ipv4Addr,
    now: u64,
) -> (DhcpServerView, Option<DhcpOffer>) {
    let e = dhcp_expire_spec(v, now);
    if !has_key(e.offers, client) {
        (e, None)
    } else {
        let o = value_of(e.offers, client);
        if o.address != address || o.server_id != server_id {
            (e, None)
        } else {
            let committed = DhcpOffer {
                expires_at: after_us(now, o.lease_time_seconds * 1_000_000),
                ..o
            };
            let rest = DhcpServerView { offers: without(e.offers, client), ..e };
            if !has_key(pools, o.pool) {
                (rest, None)
            } else {
                let binding = DhcpBinding {
                    address,
                    client_mac: client,
                    pool_name: value_of(pools, o.pool).name,
                    expires_at: committed.expires_at,
                };
                (DhcpServerView { bindings: put(e.bindings, client, binding), ..rest }, Some(committed))
            }
        }
    }
}

/// The server's leases after `mac` declines `address` at `now`: a binding or offer of that
/// address to that client is dropped and the address quarantined for ten minutes, while
/// there is room.
pub open spec fn decline_spec(v: DhcpServerView, mac: MacAddress, address: Ipv4Addr, now: u64) -> DhcpServerView {
    let valid = (has_key(v.bindings, mac) && value_of(v.bindings, mac).address == address) || (has_key(
        v.offers,
        mac,
    ) && value_of(v.offers, mac).address == address);
    if !valid {
        v
    } else {
        DhcpServerView {
            offers: without(v.offers, mac),
            bindings: without(v.bindings, mac),
            conflicts: if v.conflicts.len() < MAX_DHCP_BINDINGS {
                put(v.conflicts, address, after_us(now, DHCP_CONFLICT_US as int))
            } else {
                v.conflicts
            },
        }
    }
}

fn find_mac<V>(s: &Vec<(MacAddress, V)>, k: MacAddress) -> (r: Option<usize>)
    requires
        keys_unique(s@),
    ensures
        match r {
            Some(i) => i < s@.len() && has_key(s@, k) && key_index(s@, k) == i && s@[i as int].0 == k,
            None => !has_key(s@, k),
        },
{
    let mut i: usize = 0;
    while i < s.len()
        invariant
            keys_unique(s@),
            i <= s@.len(),
            forall|j: int| 0 <= j < i ==> #[trigger] s@[j].0 != k,
        decreases s@.len() - i,
    {
        if same_mac(s[i].0, k) {
            proof {
                lemma_key_index(s@, i as int);
            }
            return Some(i);
        }
        i = i + 1;
    }
    None
}

pub(crate) fn find_address<V>(s: &Vec<(Ipv4Addr, V)>, k: Ipv4Addr) -> (r: Option<usize>)
    requires
        keys_unique(s@),
    ensures
        match r {
            Some(i) => i < s@.len() && has_key(s@, k) && key_index(s@, k) == i && s@[i as int].0 == k,
            None => !has_key(s@, k),
        },
{
    let mut i: usize = 0;
    while i < s.len()
        invariant
            keys_unique(s@),
            i <= s@.len(),
            forall|j: int| 0 <= j < i ==> #[trigger] s@[j].0 != k,
        decreases s@.len() - i,
    {
        if s[i].0.0 == k.0 {
            proof {
                lemma_key_index(s@, i as int);
            }
            return Some(i);
        }
        i = i + 1;
    }
    None
}

pub(crate) fn find_pool(pools: &[(DhcpPoolId, DhcpPoolConfig)], id: DhcpPoolId) -> (r: Option<usize>)
    requires
        keys_unique(pools@),
    ensures
        match r {
            Some(i) => i < pools@.len() && has_key(pools@, id) && key_index(pools@, id) == i && pools@[i as int].0 == id,
            None => !has_key(pools@, id),
        },
{
    let mut i: usize = 0;
    while i < pools.len()
        invariant
            keys_unique(pools@),
            i <= pools@.len(),
            forall|j: int| 0 <= j < i ==> #[trigger] pools@[j].0 != id,
        decreases pools@.len() - i,
    {
        if pools[i].0.0 == id.0 {
            proof {
                lemma_key_index(pools@, i as int);
            }
            return Some(i);
        }
        i = i + 1;
    }
    None
}

/// Store `v` under `k`, replacing any value it had.
fn put_mac<V>(s: &mut Vec<(MacAddress, V)>, k: MacAddress, v: V)
    requires
        keys_unique(old(s)@),
    ensures
        final(s)@ == put(old(s)@, k, v),
        keys_unique(final(s)@),
{
    proof {
        lemma_put_unique(old(s)@, k, v);
    }
    match find_mac(s, k) {
        Some(i) => {
            s.set(i, (k, v));
        },
        None => {
            s.push((k, v));
        },
    }
}

/// Remove key `k`, if present.
fn remove_mac<V>(s: &mut Vec<(MacAddress, V)>, k: MacAddress)
    requires
        keys_unique(old(s)@),
    ensures
        final(s)@ == without(old(s)@, k),
        keys_unique(final(s)@),
{
    proof {
        lemma_without_unique(old(s)@, k);
    }
    if let Some(i) = find_mac(s, k) {
        let _ = s.remove(i);
    }
}


/// Store `v` under address `k`, replacing any value it had.
pub(crate) fn put_address<V>(s: &mut Vec<(Ipv4Addr, V)>, k: Ipv4Addr, v: V)
    requires
        keys_unique(old(s)@),
    ensures
        final(s)@ == put(old(s)@, k, v),
        keys_unique(final(s)@),
{
    proof {
        lemma_put_unique(old(s)@, k, v);
    }
    match find_address(s, k) {
        Some(i) => {
            s.set(i, (k, v));
        },
        None => {
            s.push((k, v));
        },
    }
}

impl DhcpServer {
    /// A server with no offers, bindings or quarantined addresses.
    pub fn new() -> (r: DhcpServer)
        ensures
            r@ == (DhcpServerView {
                offers: Seq::empty(),
                bindings: Seq::empty(),
                conflicts: Seq::empty(),
            }),
            dhcp_wf(r@),
    {
        let r = DhcpServer { offers: Vec::new(), bindings: Vec::new(), conflicts: Vec::new() };
        assert(r@ =~= DhcpServerView {
            offers: Seq::empty(),
            bindings: Seq::empty(),
            conflicts: Seq::empty(),
        });
        r
    }

    /// The outstanding offers, one per client.
    pub fn offers(&self) -> (r: &[(MacAddress, DhcpOffer)])
        ensures
            r@ == self@.offers,
    {
        self.offers.as_slice()
    }

    /// The committed bindings, one per client.
    pub fn bindings(&self) -> (r: &[(MacAddress, DhcpBinding)])
        ensures
            r@ == self@.bindings,
    {
        self.bindings.as_slice()
    }

    /// The quarantined addresses and their deadlines.
    pub fn conflicts(&self) -> (r: &[(Ipv4Addr, u64)])
        ensures
            r@ == self@.conflicts,
    {
        self.conflicts.as_slice()
    }

    /// Every address a new offer to `client` must avoid, in the order `taken_addresses`
    /// lists them.
    fn taken(&self, pools: &[(DhcpPoolId, DhcpPoolConfig)], device_addresses: &[Ipv4Addr], client: MacAddress) -> (r: Vec<Ipv4Addr>)
        ensures
            r@ == taken_addresses(self@, pools@, device_addresses@, client),
    {
        let ghost v = self@;
        let mut used: Vec<Ipv4Addr> = Vec::new();
        let mut i: usize = 0;
        assert(v.bindings.take(0) =~= Seq::<(MacAddress, DhcpBinding)>::empty());
        while i < self.bindings.len()
            invariant
                self@ == v,
                i <= v.bindings.len(),
                used@ == bound_to_others(v.bindings.take(i as int), client),
            decreases v.bindings.len() - i,
        {
            assert(v.bindings.take(i + 1).drop_last() =~= v.bindings.take(i as int));
            assert(v.bindings.take(i + 1).last() == v.bindings[i as int]);
            if !same_mac(self.bindings[i].0, client) {
                used.push(self.bindings[i].1.address);
            }
            i = i + 1;
        }
        assert(v.bindings.take(i as int) =~= v.bindings);
        let ghost first = used@;
        let mut i: usize = 0;
        assert(v.offers.take(0) =~= Seq::<(MacAddress, DhcpOffer)>::empty());
        assert(first + Seq::<Ipv4Addr>::empty() =~= first);
        while i < self.offers.len()
            invariant
                self@ == v,
                i <= v.offers.len(),
                used@ == first + offered_to_others(v.offers.take(i as int), client),
            decreases v.offers.len() - i,
        {
            assert(v.offers.take(i + 1).drop_last() =~= v.offers.take(i as int));
            assert(v.offers.take(i + 1).last() == v.offers[i as int]);
            let ghost before = offered_to_others(v.offers.take(i as int), client);
            if !same_mac(self.offers[i].0, client) {
                used.push(self.offers[i].1.address);
                assert(used@ =~= first + before.push(v.offers[i as int].1.address));
            }
            i = i + 1;
        }
        assert(v.offers.take(i as int) =~= v.offers);
        let ghost second = used@;
        let mut i: usize = 0;
        while i < device_addresses.len()
            invariant
                i <= device_addresses@.len(),
                used@ == second + device_addresses@.take(i as int),
            decreases device_addresses@.len() - i,
        {
            used.push(device_addresses[i]);
            i = i + 1;
            assert(used@ =~= second + device_addresses@.take(i as int));
        }
        assert(device_addresses@.take(i as int) =~= device_addresses@);
        let ghost third = used@;
        let mut i: usize = 0;
        assert(pools@.take(0) =~= Seq::<(DhcpPoolId, DhcpPoolConfig)>::empty());
        assert(third + Seq::<Ipv4Addr>::empty() =~= third);
        while i < pools.len()
            invariant
                i <= pools@.len(),
                used@ == third + reserved_for_others(pools@.take(i as int), client),
            decreases pools@.len() - i,
        {
            assert(pools@.take(i + 1).drop_last() =~= pools@.take(i as int));
            assert(pools@.take(i + 1).last() == pools@[i as int]);
            let ghost before = reserved_for_others(pools@.take(i as int), client);
            let pool = &pools[i].1;
            let others = match pool.hardware_address {
                Some(mac) => !same_mac(mac, client),
                None => true,
            };
            if others {
                if let Some(address) = pool.reserved_address {
                    used.push(address);
                    assert(used@ =~= third + before.push(address));
                }
            }
            i = i + 1;
        }
        assert(pools@.take(i as int) =~= pools@);
        let ghost fourth = used@;
        let mut i: usize = 0;
        assert(v.conflicts.take(0) =~= Seq::<(Ipv4Addr, u64)>::empty());
        assert(fourth + Seq::<Ipv4Addr>::empty() =~= fourth);
        while i < self.conflicts.len()
            invariant
                self@ == v,
                i <= v.conflicts.len(),
                used@ == fourth + quarantined(v.conflicts.take(i as int)),
            decreases v.conflicts.len() - i,
        {
            assert(v.conflicts.take(i + 1).drop_last() =~= v.conflicts.take(i as int));
            assert(v.conflicts.take(i + 1).last() == v.conflicts[i as int]);
            let ghost before = quarantined(v.conflicts.take(i as int));
            used.push(self.conflicts[i].0);
            assert(used@ =~= fourth + before.push(v.conflicts[i as int].0));
            i = i + 1;
        }
        assert(v.conflicts.take(i as int) =~= v.conflicts);
        used
    }

    /// Offer a lease to the client with hardware address `client_mac` whose request names
    /// `subnet` (the relay's address, or the receiving interface's own address), answering
    /// from `server_id`. `pools` are the configured pools, `excluded` the ranges kept out of
    /// every pool, and `device_addresses` the device's own interface addresses.
    pub fn offer_dhcp_on_network(
        &mut self,
        pools: &[(DhcpPoolId, DhcpPoolConfig)],
        excluded: &[(Ipv4Addr, Ipv4Addr)],
        device_addresses: &[Ipv4Addr],
        server_id: Ipv4Addr,
        client_mac: MacAddress,
        subnet: Ipv4Addr,
        now: u64,
    ) -> (r: Option<DhcpOffer>)
        requires
            dhcp_wf(old(self)@),
        ensures
            dhcp_wf(final(self)@),
            (final(self)@, r) == offer_spec(
                old(self)@,
                pools@,
                excluded@,
                device_addresses@,
                server_id,
                client_mac,
                subnet,
                now,
            ),
    {
        self.expire(now);
        let i = match select_dhcp_pool(pools, subnet, client_mac) {
            Some(i) => i,
            None => return None,
        };
        proof {
            let k = choose|k: int| pool_selected(pools@, subnet, client_mac, k);
            lemma_pool_selected_unique(pools@, subnet, client_mac, k, i as int);
        }
        let id = pools[i].0;
        let pool = &pools[i].1;
        let network = match pool.network {
            Some(n) => n,
            None => return None,
        };
        if let Some(k) = find_mac(&self.offers, client_mac) {
            let existing = self.offers[k].1;
            if existing.pool.0 == id.0 {
                return Some(existing);
            }
        }
        let previous = match find_mac(&self.bindings, client_mac) {
            Some(k) => {
                if self.bindings[k].1.pool_name == pool.name {
                    Some(self.bindings[k].1.address)
                } else {
                    None
                }
            },
            None => None,
        };
        if (self.offers.len() >= MAX_DHCP_BINDINGS || self.bindings.len() >= MAX_DHCP_BINDINGS
            - self.offers.len()) && previous.is_none() {
            return None;
        }
        let used = self.taken(pools, device_addresses, client_mac);
        let chosen = choose_dhcp_address(
            network,
            &used,
            pool.default_router,
            excluded,
            pool.reserved_address,
            previous,
        );
        proof {
            lemma_choice_matches(
                network@,
                used@,
                pool.default_router,
                excluded@,
                pool.reserved_address,
                previous,
                chosen,
            );
        }
        let address = match chosen {
            Some(a) => a,
            None => return None,
        };
        let offer = DhcpOffer {
            address,
            prefix_len: network.prefix_len(),
            default_router: pool.default_router,
            server_id,
            lease_time_seconds: pool.lease_seconds,
            pool: id,
            expires_at: now.saturating_add(DHCP_OFFER_US),
        };
        put_mac(&mut self.offers, client_mac, offer);
        Some(offer)
    }

    /// Commit the outstanding offer to `client_mac` when the client requests its `address`
    /// from `server_id`, returning the lease. `pools` are the configured pools.
    pub fn commit_dhcp(
        &mut self,
        pools: &[(DhcpPoolId, DhcpPoolConfig)],
        client_mac: MacAddress,
        address: Ipv4Addr,
        server_id: Ipv4Addr,
        now: u64,
    ) -> (r: Option<DhcpOffer>)
        requires
            dhcp_wf(old(self)@),
            keys_unique(pools@),
        ensures
            dhcp_wf(final(self)@),
            (final(self)@, r) == commit_spec(old(self)@, pools@, client_mac, address, server_id, now),
    {
        self.expire(now);
        let k = match find_mac(&self.offers, client_mac) {
            Some(k) => k,
            None => return None,
        };
        let mut offer = self.offers[k].1;
        if offer.address.0 != address.0 || offer.server_id.0 != server_id.0 {
            return None;
        }
        remove_mac(&mut self.offers, client_mac);
        offer.expires_at = now.saturating_add((offer.lease_time_seconds as u64) * 1_000_000);
        let p = match find_pool(pools, offer.pool) {
            Some(p) => p,
            None => return None,
        };
        let binding = DhcpBinding {
            address,
            client_mac,
            pool_name: pools[p].1.name.clone(),
            expires_at: offer.expires_at,
        };
        put_mac(&mut self.bindings, client_mac, binding);
        Some(offer)
    }

    /// Quarantine `address` for ten minutes when the client `mac` it was bound or offered to
    /// declines it, dropping that binding and offer.
    pub fn decline_dhcp(&mut self, mac: MacAddress, address: Ipv4Addr, now: u64)
        requires
            dhcp_wf(old(self)@),
        ensures
            dhcp_wf(final(self)@),
            final(self)@ == decline_spec(old(self)@, mac, address, now),
    {
        let bound = match find_mac(&self.bindings, mac) {
            Some(k) => self.bindings[k].1.address.0 == address.0,
            None => false,
        };
        let offered = match find_mac(&self.offers, mac) {
            Some(k) => self.offers[k].1.address.0 == address.0,
            None => false,
        };
        if bound || offered {
            remove_mac(&mut self.bindings, mac);
            remove_mac(&mut self.offers, mac);
            if self.conflicts.len() < MAX_DHCP_BINDINGS {
                put_address(&mut self.conflicts, address, now.saturating_add(DHCP_CONFLICT_US));
            }
        }
    }

    /// Withdraw the offers made from pool `id`.
    pub fn forget_pool_offers(&mut self, id: DhcpPoolId)
        requires
            dhcp_wf(old(self)@),
        ensures
            dhcp_wf(final(self)@),
            final(self)@ == forget_pool_spec(old(self)@, id),
    {
        let ghost v = self@;
        let ghost keep = |o: DhcpOffer| o.pool != id;
        let mut offers: Vec<(MacAddress, DhcpOffer)> = Vec::new();
        let mut i: usize = 0;
        assert(v.offers.take(0) =~= Seq::<(MacAddress, DhcpOffer)>::empty());
        while i < self.offers.len()
            invariant
                self@ == v,
                i <= v.offers.len(),
                offers@ == kept(v.offers.take(i as int), keep),
                keep == (|o: DhcpOffer| o.pool != id),
            decreases v.offers.len() - i,
        {
            let e = self.offers[i];
            assert(v.offers.take(i + 1).drop_last() =~= v.offers.take(i as int));
            assert(v.offers.take(i + 1).last() == e);
            if e.1.pool.0 != id.0 {
                offers.push(e);
            }
            i = i + 1;
        }
        assert(v.offers.take(i as int) =~= v.offers);
        proof {
            lemma_kept(v.offers, keep);
        }
        self.offers = offers;
    }

    /// Withdraw the offers of addresses in `first..=last`.
    pub fn forget_offers_in(&mut self, first: Ipv4Addr, last: Ipv4Addr)
        requires
            dhcp_wf(old(self)@),
        ensures
            dhcp_wf(final(self)@),
            final(self)@ == forget_range_spec(old(self)@, first, last),
    {
        let ghost v = self@;
        let ghost keep = |o: DhcpOffer| o.address.0 < first.0 || o.address.0 > last.0;
        let mut offers: Vec<(MacAddress, DhcpOffer)> = Vec::new();
        let mut i: usize = 0;
        assert(v.offers.take(0) =~= Seq::<(MacAddress, DhcpOffer)>::empty());
        while i < self.offers.len()
            invariant
                self@ == v,
                i <= v.offers.len(),
                offers@ == kept(v.offers.take(i as int), keep),
                keep == (|o: DhcpOffer| o.address.0 < first.0 || o.address.0 > last.0),
            decreases v.offers.len() - i,
        {
            let e = self.offers[i];
            assert(v.offers.take(i + 1).drop_last() =~= v.offers.take(i as int));
            assert(v.offers.take(i + 1).last() == e);
            if e.1.address.0 < first.0 || e.1.address.0 > last.0 {
                offers.push(e);
            }
            i = i + 1;
        }
        assert(v.offers.take(i as int) =~= v.offers);
        proof {
            lemma_kept(v.offers, keep);
        }
        self.offers = offers;
    }

    /// Drop offers, bindings and quarantines that ended by `now`.
    pub fn expire(&mut self, now: u64)
        requires
            dhcp_wf(old(self)@),
        ensures
            dhcp_wf(final(self)@),
            final(self)@ == dhcp_expire_spec(old(self)@, now),
    {
        let ghost v = self@;
        let ghost keep_offer = |o: DhcpOffer| o.expires_at > now;
        let ghost keep_binding = |b: DhcpBinding| b.expires_at > now;
        let ghost keep_conflict = |d: u64| d > now;
        let mut offers: Vec<(MacAddress, DhcpOffer)> = Vec::new();
        let mut i: usize = 0;
        assert(v.offers.take(0) =~= Seq::<(MacAddress, DhcpOffer)>::empty());
        while i < self.offers.len()
            invariant
                self@ == v,
                i <= v.offers.len(),
                offers@ == kept(v.offers.take(i as int), keep_offer),
                keep_offer == (|o: DhcpOffer| o.expires_at > now),
            decreases v.offers.len() - i,
        {
            let e = self.offers[i];
            assert(v.offers.take(i + 1).drop_last() =~= v.offers.take(i as int));
            assert(v.offers.take(i + 1).last() == e);
            if e.1.expires_at > now {
                offers.push(e);
            }
            i = i + 1;
        }
        assert(v.offers.take(i as int) =~= v.offers);
        let mut bindings: Vec<(MacAddress, DhcpBinding)> = Vec::new();
        let mut j: usize = 0;
        assert(v.bindings.take(0) =~= Seq::<(MacAddress, DhcpBinding)>::empty());
        while j < self.bindings.len()
            invariant
                self@ == v,
                j <= v.bindings.len(),
                bindings@ == kept(v.bindings.take(j as int), keep_binding),
                keep_binding == (|b: DhcpBinding| b.expires_at > now),
            decreases v.bindings.len() - j,
        {
            assert(v.bindings.take(j + 1).drop_last() =~= v.bindings.take(j as int));
            assert(v.bindings.take(j + 1).last() == v.bindings[j as int]);
            if self.bindings[j].1.expires_at > now {
                let b = &self.bindings[j];
                let copy = (b.0, DhcpBinding {
                    address: b.1.address,
                    client_mac: b.1.client_mac,
                    pool_name: b.1.pool_name.clone(),
                    expires_at: b.1.expires_at,
                });
                assert(copy == v.bindings[j as int]);
                bindings.push(copy);
            }
            j = j + 1;
        }
        assert(v.bindings.take(j as int) =~= v.bindings);
        let mut conflicts: Vec<(Ipv4Addr, u64)> = Vec::new();
        let mut k: usize = 0;
        assert(v.conflicts.take(0) =~= Seq::<(Ipv4Addr, u64)>::empty());
        while k < self.conflicts.len()
            invariant
                self@ == v,
                k <= v.conflicts.len(),
                conflicts@ == kept(v.conflicts.take(k as int), keep_conflict),
                keep_conflict == (|d: u64| d > now),
            decreases v.conflicts.len() - k,
        {
            let e = self.conflicts[k];
            assert(v.conflicts.take(k + 1).drop_last() =~= v.conflicts.take(k as int));
            assert(v.conflicts.take(k + 1).last() == e);
            if e.1 > now {
                conflicts.push(e);
            }
            k = k + 1;
        }
        assert(v.conflicts.take(k as int) =~= v.conflicts);
        proof {
            lemma_kept(v.offers, keep_offer);
            lemma_kept(v.bindings, keep_binding);
            lemma_kept(v.conflicts, keep_conflict);
        }
        self.offers = offers;
        self.bindings = bindings;
        self.conflicts = conflicts;
    }
}

/// Every quarantined entry's address is listed by `quarantined`.
proof fn lemma_quarantined_lists(cs: Seq<(Ipv4Addr, u64)>)
    ensures
        forall|i: int| 0 <= i < cs.len() ==> quarantined(cs).contains(#[trigger] cs[i].0),
    decreases cs.len(),
{
    if cs.len() > 0 {
        lemma_quarantined_lists(cs.drop_last());
        let q = quarantined(cs);
        assert forall|i: int| 0 <= i < cs.len() implies q.contains(#[trigger] cs[i].0) by {
            if i < cs.len() - 1 {
                assert(cs.drop_last()[i] == cs[i]);
                let r = quarantined(cs.drop_last());
                assert(r.contains(cs[i].0));
                let m = choose|m: int| 0 <= m < r.len() && r[m] == cs[i].0;
                assert(q[m] == r[m]);
            } else {
                assert(q[q.len() - 1] == cs[i].0);
            }
        }
    }
}

/// The offered address is allowed by the choice that produced it.
proof fn lemma_choice_allowed(
    network: (u32, u8),
    used: Seq<Ipv4Addr>,
    router: Option<Ipv4Addr>,
    excluded: Seq<(Ipv4Addr, Ipv4Addr)>,
    reserved: Option<Ipv4Addr>,
    previous: Option<Ipv4Addr>,
)
    requires
        dhcp_choice(network, used, router, excluded, reserved, previous) is Some,
    ensures
        ({
            let a = dhcp_choice(network, used, router, excluded, reserved, previous)->Some_0;
            offer_allowed(network, used, router, excluded, a.0) && !used.contains(a)
        }),
{
}

/// A new offer never hands out a taken address: one bound or offered to another client,
/// one of the device's own, one reserved for another client, or a quarantined one.
pub proof fn lemma_new_offer_avoids_taken(
    v: DhcpServerView,
    pools: Seq<(DhcpPoolId, DhcpPoolConfig)>,
    excluded: Seq<(Ipv4Addr, Ipv4Addr)>,
    device_addresses: Seq<Ipv4Addr>,
    server_id: Ipv4Addr,
    client: MacAddress,
    subnet: Ipv4Addr,
    now: u64,
)
    requires
        !has_key(dhcp_expire_spec(v, now).offers, client),
    ensures
        offer_spec(v, pools, excluded, device_addresses, server_id, client, subnet, now).1 matches Some(o)
            ==> !taken_addresses(dhcp_expire_spec(v, now), pools, device_addresses, client).contains(o.address),
{
    let e = dhcp_expire_spec(v, now);
    if exists|i: int| pool_selected(pools, subnet, client, i) {
        let i = choose|i: int| pool_selected(pools, subnet, client, i);
        let pool = pools[i].1;
        let previous = if has_key(e.bindings, client) && value_of(e.bindings, client).pool_name@
            == pool.name@ {
            Some(value_of(e.bindings, client).address)
        } else {
            None
        };
        let used = taken_addresses(e, pools, device_addresses, client);
        if dhcp_choice(pool.network->Some_0@, used, pool.default_router, excluded, pool.reserved_address, previous) is Some {
            lemma_choice_allowed(pool.network->Some_0@, used, pool.default_router, excluded, pool.reserved_address, previous);
        }
    }
}

/// A declined address stays out of new offers while it is quarantined.
pub proof fn lemma_declined_address_not_reoffered(
    v: DhcpServerView,
    mac: MacAddress,
    address: Ipv4Addr,
    now: u64,
    pools: Seq<(DhcpPoolId, DhcpPoolConfig)>,
    excluded: Seq<(Ipv4Addr, Ipv4Addr)>,
    device_addresses: Seq<Ipv4Addr>,
    server_id: Ipv4Addr,
    client: MacAddress,
    subnet: Ipv4Addr,
    later: u64,
)
    requires
        dhcp_wf(v),
        (has_key(v.bindings, mac) && value_of(v.bindings, mac).address == address) || (has_key(v.offers, mac)
            && value_of(v.offers, mac).address == address),
        v.conflicts.len() < MAX_DHCP_BINDINGS,
        later < after_us(now, DHCP_CONFLICT_US as int),
        !has_key(dhcp_expire_spec(decline_spec(v, mac, address, now), later).offers, client),
    ensures
        offer_spec(decline_spec(v, mac, address, now), pools, excluded, device_addresses, server_id, client, subnet, later).1 matches Some(o)
            ==> o.address != address,
{
    let d = decline_spec(v, mac, address, now);
    let deadline = after_us(now, DHCP_CONFLICT_US as int);
    lemma_put_holds(v.conflicts, address, deadline);
    let keep = |c: u64| c > later;
    lemma_kept(d.conflicts, keep);
    let live = kept(d.conflicts, keep);
    let i = choose|i: int| 0 <= i < d.conflicts.len() && d.conflicts[i] == (address, deadline);
    assert(keep(d.conflicts[i].1));
    assert(live.contains(d.conflicts[i]));
    let j = choose|j: int| 0 <= j < live.len() && live[j] == (address, deadline);
    lemma_quarantined_lists(live);
    assert(quarantined(live).contains(live[j].0));
    let e = dhcp_expire_spec(d, later);
    assert(e.conflicts == live);
    let taken = taken_addresses(e, pools, device_addresses, client);
    let q = quarantined(live);
    let m = choose|m: int| 0 <= m < q.len() && q[m] == address;
    let prefix = bound_to_others(e.bindings, client) + offered_to_others(e.offers, client) + device_addresses
        + reserved_for_others(pools, client);
    assert(taken == prefix + q);
    assert(taken[prefix.len() + m] == address);
    assert(taken.contains(address));
    lemma_new_offer_avoids_taken(d, pools, excluded, device_addresses, server_id, client, subnet, later);
}

/// Expiry keeps keys unique.
proof fn lemma_expire_wf(v: DhcpServerView, now: u64)
    requires
        dhcp_wf(v),
    ensures
        dhcp_wf(dhcp_expire_spec(v, now)),
{
    lemma_kept(v.offers, |o: DhcpOffer| o.expires_at > now);
    lemma_kept(v.bindings, |b: DhcpBinding| b.expires_at > now);
    lemma_kept(v.conflicts, |d: u64| d > now);
}

/// A repeated request before the offer expires is answered with the same offer: no second
/// address is reserved for the client.
pub proof fn lemma_repeated_request_same_offer(
    v: DhcpServerView,
    pools: Seq<(DhcpPoolId, DhcpPoolConfig)>,
    excluded: Seq<(Ipv4Addr, Ipv4Addr)>,
    device_addresses: Seq<Ipv4Addr>,
    server_id: Ipv4Addr,
    client: MacAddress,
    subnet: Ipv4Addr,
    now: u64,
    later: u64,
)
    requires
        dhcp_wf(v),
        offer_spec(v, pools, excluded, device_addresses, server_id, client, subnet, now).1 is Some,
        later < offer_spec(v, pools, excluded, device_addresses, server_id, client, subnet, now).1->Some_0.expires_at,
    ensures
        ({
            let (offered, offer) = offer_spec(v, pools, excluded, device_addresses, server_id, client, subnet, now);
            offer_spec(offered, pools, excluded, device_addresses, server_id, client, subnet, later).1 == offer
        }),
{
    let e = dhcp_expire_spec(v, now);
    lemma_expire_wf(v, now);
    let (offered, offer) = offer_spec(v, pools, excluded, device_addresses, server_id, client, subnet, now);
    let o = offer->Some_0;
    let i = choose|i: int| pool_selected(pools, subnet, client, i);
    assert(offered.offers.contains((client, o)) && o.pool == pools[i].0) by {
        if has_key(e.offers, client) && value_of(e.offers, client).pool == pools[i].0 {
            let k = key_index(e.offers, client);
            assert(e.offers[k] == (client, o));
        } else {
            lemma_put_holds(e.offers, client, o);
        }
    }
    assert(keys_unique(offered.offers)) by {
        if !(has_key(e.offers, client) && value_of(e.offers, client).pool == pools[i].0) {
            lemma_put_unique(e.offers, client, o);
        }
    }
    let keep = |x: DhcpOffer| x.expires_at > later;
    lemma_kept(offered.offers, keep);
    let j = choose|j: int| 0 <= j < offered.offers.len() && offered.offers[j] == (client, o);
    assert(keep(offered.offers[j].1));
    let live = kept(offered.offers, keep);
    assert(live.contains((client, o)));
    lemma_value_of(live, client, o);
    let e2 = dhcp_expire_spec(offered, later);
    assert(e2.offers == live);
}

/// An offer can be taken up: when the client requests the offered address from the server
/// that offered it before the offer expires, the lease is committed and the client is bound
/// to that address.
pub proof fn lemma_offer_then_commit(
    v: DhcpServerView,
    pools: Seq<(DhcpPoolId, DhcpPoolConfig)>,
    excluded: Seq<(Ipv4Addr, Ipv4Addr)>,
    device_addresses: Seq<Ipv4Addr>,
    server_id: Ipv4Addr,
    client: MacAddress,
    subnet: Ipv4Addr,
    now: u64,
    later: u64,
)
    requires
        dhcp_wf(v),
        keys_unique(pools),
        offer_spec(v, pools, excluded, device_addresses, server_id, client, subnet, now).1 is Some,
        later < offer_spec(v, pools, excluded, device_addresses, server_id, client, subnet, now).1->Some_0.expires_at,
    ensures
        ({
            let (offered, offer) = offer_spec(v, pools, excluded, device_addresses, server_id, client, subnet, now);
            let o = offer->Some_0;
            let (bound, lease) = commit_spec(offered, pools, client, o.address, o.server_id, later);
            &&& lease matches Some(l) && l.address == o.address && l.pool == o.pool
            &&& has_key(bound.bindings, client)
            &&& value_of(bound.bindings, client).address == o.address
        }),
{
    let e = dhcp_expire_spec(v, now);
    lemma_expire_wf(v, now);
    let (offered, offer) = offer_spec(v, pools, excluded, device_addresses, server_id, client, subnet, now);
    let o = offer->Some_0;
    let i = choose|i: int| pool_selected(pools, subnet, client, i);
    assert(offered.offers.contains((client, o))) by {
        if has_key(e.offers, client) && value_of(e.offers, client).pool == pools[i].0 {
            let k = key_index(e.offers, client);
            assert(e.offers[k] == (client, o));
        } else {
            lemma_put_holds(e.offers, client, o);
        }
    }
    assert(keys_unique(offered.offers)) by {
        if !(has_key(e.offers, client) && value_of(e.offers, client).pool == pools[i].0) {
            lemma_put_unique(e.offers, client, o);
        }
    }
    let keep = |x: DhcpOffer| x.expires_at > later;
    lemma_kept(offered.offers, keep);
    let j = choose|j: int| 0 <= j < offered.offers.len() && offered.offers[j] == (client, o);
    assert(keep(offered.offers[j].1));
    let live = kept(offered.offers, keep);
    assert(live.contains((client, o)));
    lemma_value_of(live, client, o);
    assert(o.pool == pools[i].0);
    assert(pools[i].0 == o.pool);
    assert(has_key(pools, o.pool));
    let e2 = dhcp_expire_spec(offered, later);
    let binding = DhcpBinding {
        address: o.address,
        client_mac: client,
        pool_name: value_of(pools, o.pool).name,
        expires_at: after_us(later, o.lease_time_seconds * 1_000_000),
    };
    assert(dhcp_wf(offered)) by {
        assert(offered.bindings == e.bindings && offered.conflicts == e.conflicts);
    }
    lemma_expire_wf(offered, later);
    lemma_put_holds(e2.bindings, client, binding);
    lemma_put_unique(e2.bindings, client, binding);
    lemma_value_of(put(e2.bindings, client, binding), client, binding);
}

/// The server's leases once the offers from pool `id` are withdrawn.
pub open spec fn forget_pool_spec(v: DhcpServerView, id: DhcpPoolId) -> DhcpServerView {
    DhcpServerView { offers: kept(v.offers, |o: DhcpOffer| o.pool != id), ..v }
}

/// The server's leases once the offers of addresses in `first..=last` are withdrawn.
pub open spec fn forget_range_spec(v: DhcpServerView, first: Ipv4Addr, last: Ipv4Addr) -> DhcpServerView {
    DhcpServerView {
        offers: kept(v.offers, |o: DhcpOffer| o.address.0 < first.0 || o.address.0 > last.0),
        ..v
    }
}

} // verus!
