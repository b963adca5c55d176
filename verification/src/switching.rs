//! The forwarding table of a switch: unicast source addresses learned per VLAN on a port,
//! aged in virtual time and forgotten when the port or VLAN they depend on changes.
use crate::dhcp::same_mac;
use crate::keyed::{
    has_key, key_index, keys_unique, kept, lemma_key_index, lemma_kept, lemma_put_unique,
    lemma_without_unique, put, value_of, without,
};
use crate::mac::{MacAddress, VlanId};
use crate::routing::InterfaceId;
use vstd::prelude::*;

verus! {

/// How long a learned address stays usable: five minutes, in microseconds.
pub const MAC_LIFETIME_US: u64 = 300_000_000;

/// A dynamically learned forwarding entry; `learned_at` is in microseconds.
#[derive(Debug, Clone, Copy, PartialEq, Eq)]
pub struct MacEntry {
    pub vlan: VlanId,
    pub address: MacAddress,
    pub interface: InterfaceId,
    pub learned_at: u64,
}

/// The key of an entry: its VLAN number and address.
pub open spec fn mac_key(e: MacEntry) -> (u16, MacAddress) {
    (e.vlan@, e.address)
}

/// The learned entries of a switch, at most one per VLAN and address, in the order the
/// keys were first learned.
#[derive(Debug, Clone, PartialEq, Eq)]
pub struct MacTable {
    entries: Vec<MacEntry>,
}

/// The entries of a table keyed by VLAN number and address.
pub open spec fn keyed_entries(s: Seq<MacEntry>) -> Seq<((u16, MacAddress), MacEntry)> {
    s.map_values(|e: MacEntry| (mac_key(e), e))
}

impl View for MacTable {
    type V = Seq<((u16, MacAddress), MacEntry)>;

    closed spec fn view(&self) -> Seq<((u16, MacAddress), MacEntry)> {
        keyed_entries(self.entries@)
    }
}

/// A table with each key once, each entry under its own key.
pub open spec fn mac_table_wf(s: Seq<((u16, MacAddress), MacEntry)>) -> bool {
    &&& keys_unique(s)
    &&& forall|i: int| 0 <= i < s.len() ==> (#[trigger] s[i]).0 == mac_key(s[i].1)
}

/// Whether a source address is learned: neither all zeros nor a group address.
pub open spec fn learnable(address: MacAddress) -> bool {
    &&& !(forall|i: int| 0 <= i < 6 ==> #[trigger] address.0@[i] == 0)
    &&& address.0@[0] % 2 == 0
}

/// Whether an entry is usable at `now`: less than the lifetime has passed since it was
/// learned (no time has passed when `now` lies before it).
pub open spec fn mac_fresh(e: MacEntry, now: u64) -> bool {
    (if now >= e.learned_at {
        now - e.learned_at
    } else {
        0
    }) < MAC_LIFETIME_US
}

/// The table after learning `address` on `interface` in `vlan` at `now`: a learnable
/// address is stored, replacing what its key held; any other leaves the table as it was.
pub open spec fn mac_learn_spec(
    s: Seq<((u16, MacAddress), MacEntry)>,
    vlan: VlanId,
    address: MacAddress,
    interface: InterfaceId,
    now: u64,
) -> Seq<((u16, MacAddress), MacEntry)> {
    if learnable(address) {
        put(s, (vlan@, address), MacEntry { vlan, address, interface, learned_at: now })
    } else {
        s
    }
}

/// The table and result of looking `address` up in `vlan` at `now`: a usable entry is
/// returned, a stale one is dropped.
pub open spec fn mac_lookup_spec(s: Seq<((u16, MacAddress), MacEntry)>, vlan: u16, address: MacAddress, now: u64) -> (
    Seq<((u16, MacAddress), MacEntry)>,
    Option<MacEntry>,
) {
    let k = (vlan, address);
    if !has_key(s, k) {
        (s, None)
    } else if mac_fresh(value_of(s, k), now) {
        (s, Some(value_of(s, k)))
    } else {
        (without(s, k), None)
    }
}

/// What a pass over the table keeps.
pub enum MacFilter {
    /// Entries still usable at this time.
    FreshAt(u64),
    /// Entries learned on another interface.
    OffInterface(InterfaceId),
    /// Entries of another VLAN.
    OffVlan(u16),
}

/// Whether `filter` keeps entry `e`.
pub open spec fn keeps(filter: MacFilter, e: MacEntry) -> bool {
    match filter {
        MacFilter::FreshAt(now) => mac_fresh(e, now),
        MacFilter::OffInterface(id) => e.interface != id,
        MacFilter::OffVlan(vlan) => e.vlan@ != vlan,
    }
}

/// `keeps` as a predicate on entries.
pub open spec fn kept_by(filter: MacFilter) -> spec_fn(MacEntry) -> bool {
    |e: MacEntry| keeps(filter, e)
}

/// Whether an entry was learned on none of `interfaces`, as a predicate on entries.
pub open spec fn off_interfaces(interfaces: Seq<InterfaceId>) -> spec_fn(MacEntry) -> bool {
    |e: MacEntry| !interfaces.contains(e.interface)
}

impl MacTable {
    /// An empty table.
    pub fn new() -> (r: MacTable)
        ensures
            r@ == Seq::<((u16, MacAddress), MacEntry)>::empty(),
            mac_table_wf(r@),
    {
        let r = MacTable { entries: Vec::new() };
        assert(r@ =~= Seq::<((u16, MacAddress), MacEntry)>::empty());
        r
    }

    /// Where the entry for `vlan` and `address` is.
    fn position(&self, vlan: VlanId, address: MacAddress) -> (r: Option<usize>)
        requires
            mac_table_wf(self@),
        ensures
            match r {
                Some(i) => i < self@.len() && has_key(self@, (vlan@, address)) && key_index(self@, (vlan@, address))
                    == i,
                None => !has_key(self@, (vlan@, address)),
            },
    {
        let ghost s = self@;
        let mut i: usize = 0;
        while i < self.entries.len()
            invariant
                s == self@,
                mac_table_wf(s),
                s.len() == self.entries@.len(),
                i <= s.len(),
                forall|j: int| 0 <= j < i ==> #[trigger] s[j].0 != (vlan@, address),
            decreases s.len() - i,
        {
            let e = self.entries[i];
            assert(s[i as int] == (mac_key(e), e));
            if e.vlan.get() == vlan.get() && same_mac(e.address, address) {
                proof {
                    lemma_key_index(s, i as int);
                }
                return Some(i);
            }
            i = i + 1;
        }
        None
    }

    /// Learn or move `address` in `vlan` to `interface` at `now`; the all-zero address and
    /// group addresses are not learned.
    pub fn learn(&mut self, vlan: VlanId, address: MacAddress, interface: InterfaceId, now: u64)
        requires
            mac_table_wf(old(self)@),
        ensures
            mac_table_wf(final(self)@),
            final(self)@ == mac_learn_spec(old(self)@, vlan, address, interface, now),
    {
        let zero = address.0[0] == 0 && address.0[1] == 0 && address.0[2] == 0 && address.0[3] == 0 && address.0[4]
            == 0 && address.0[5] == 0;
        proof {
            if !zero {
                assert(!(forall|i: int| 0 <= i < 6 ==> #[trigger] address.0@[i] == 0)) by {
                    if address.0@[0] != 0 {
                        assert(address.0@[0] != 0);
                    } else if address.0@[1] != 0 {
                        assert(address.0@[1] != 0);
                    } else if address.0@[2] != 0 {
                        assert(address.0@[2] != 0);
                    } else if address.0@[3] != 0 {
                        assert(address.0@[3] != 0);
                    } else if address.0@[4] != 0 {
                        assert(address.0@[4] != 0);
                    } else {
                        assert(address.0@[5] != 0);
                    }
                }
            }
        }
        if zero || address.is_multicast() {
            return;
        }
        let e = MacEntry { vlan, address, interface, learned_at: now };
        let ghost before = self@;
        proof {
            lemma_put_unique(before, (vlan@, address), e);
        }
        match self.position(vlan, address) {
            Some(i) => {
                self.entries.set(i, e);
                proof {
                    assert(self@ =~= before.update(i as int, ((vlan@, address), e)));
                }
            },
            None => {
                self.entries.push(e);
                proof {
                    assert(self@ =~= before.push(((vlan@, address), e)));
                }
            },
        }
        proof {
            let s = self@;
            assert forall|i: int| 0 <= i < s.len() implies (#[trigger] s[i]).0 == mac_key(s[i].1) by {}
        }
    }

    /// The usable entry for `address` in `vlan` at `now`; a stale entry is dropped.
    pub fn mac_lookup(&mut self, vlan: VlanId, address: MacAddress, now: u64) -> (r: Option<MacEntry>)
        requires
            mac_table_wf(old(self)@),
        ensures
            mac_table_wf(final(self)@),
            (final(self)@, r) == mac_lookup_spec(old(self)@, vlan@, address, now),
    {
        let i = match self.position(vlan, address) {
            None => {
                return None;
            },
            Some(i) => i,
        };
        let e = self.entries[i];
        let ghost before = self@;
        assert(before[i as int] == (mac_key(e), e));
        if now.saturating_sub(e.learned_at) >= MAC_LIFETIME_US {
            proof {
                lemma_without_unique(before, (vlan@, address));
            }
            let _ = self.entries.remove(i);
            proof {
                assert(self@ =~= before.remove(i as int));
                let s = self@;
                assert forall|k: int| 0 <= k < s.len() implies (#[trigger] s[k]).0 == mac_key(s[k].1) by {
                    if k < i {
                        assert(s[k] == before[k]);
                    } else {
                        assert(s[k] == before[k + 1]);
                    }
                }
            }
            None
        } else {
            Some(e)
        }
    }

    /// Keep the entries `filter` keeps, in order.
    fn retain_where(&mut self, filter: MacFilter)
        requires
            mac_table_wf(old(self)@),
        ensures
            mac_table_wf(final(self)@),
            final(self)@ == kept(old(self)@, kept_by(filter)),
    {
        let ghost before = self@;
        let mut out: Vec<MacEntry> = Vec::new();
        let mut i: usize = 0;
        while i < self.entries.len()
            invariant
                self@ == before,
                before.len() == self.entries@.len(),
                i <= before.len(),
                keyed_entries(out@) == kept(before.take(i as int), kept_by(filter)),
            decreases before.len() - i,
        {
            let e = self.entries[i];
            proof {
                assert(before.take(i + 1).drop_last() =~= before.take(i as int));
                assert(before[i as int] == (mac_key(e), e));
                assert(before.take(i + 1).last() == (mac_key(e), e));
            }
            let keep = match filter {
                MacFilter::FreshAt(now) => now.saturating_sub(e.learned_at) < MAC_LIFETIME_US,
                MacFilter::OffInterface(id) => e.interface.0 != id.0,
                MacFilter::OffVlan(vlan) => e.vlan.get() != vlan,
            };
            let ghost prev = out@;
            if keep {
                out.push(e);
                proof {
                    assert(keyed_entries(out@) =~= keyed_entries(prev).push((mac_key(e), e)));
                }
            }
            i = i + 1;
        }
        proof {
            assert(before.take(before.len() as int) =~= before);
            lemma_kept(before, kept_by(filter));
        }
        self.entries = out;
        proof {
            let s = self@;
            assert forall|k: int| 0 <= k < s.len() implies (#[trigger] s[k]).0 == mac_key(s[k].1) by {}
        }
    }

    /// Forget every address learned on one of `interfaces`.
    pub fn forget_interfaces(&mut self, interfaces: &Vec<InterfaceId>)
        requires
            mac_table_wf(old(self)@),
        ensures
            mac_table_wf(final(self)@),
            final(self)@ == kept(old(self)@, off_interfaces(interfaces@)),
    {
        let ghost before = self@;
        let mut out: Vec<MacEntry> = Vec::new();
        let mut i: usize = 0;
        while i < self.entries.len()
            invariant
                self@ == before,
                before.len() == self.entries@.len(),
                i <= before.len(),
                keyed_entries(out@) == kept(before.take(i as int), off_interfaces(interfaces@)),
            decreases before.len() - i,
        {
            let e = self.entries[i];
            proof {
                assert(before.take(i + 1).drop_last() =~= before.take(i as int));
                assert(before[i as int] == (mac_key(e), e));
                assert(before.take(i + 1).last() == (mac_key(e), e));
            }
            let mut listed = false;
            let mut k: usize = 0;
            while k < interfaces.len()
                invariant
                    k <= interfaces@.len(),
                    listed == exists|j: int| 0 <= j < k && interfaces@[j] == e.interface,
                decreases interfaces@.len() - k,
            {
                if interfaces[k].0 == e.interface.0 {
                    listed = true;
                }
                k = k + 1;
            }
            let ghost prev = out@;
            if !listed {
                out.push(e);
                proof {
                    assert(keyed_entries(out@) =~= keyed_entries(prev).push((mac_key(e), e)));
                }
            }
            i = i + 1;
        }
        proof {
            assert(before.take(before.len() as int) =~= before);
            lemma_kept(before, off_interfaces(interfaces@));
        }
        self.entries = out;
        proof {
            let s = self@;
            assert forall|k: int| 0 <= k < s.len() implies (#[trigger] s[k]).0 == mac_key(s[k].1) by {}
        }
    }

    /// Drop every stale entry and return the usable ones, in table order.
    pub fn mac_entries(&mut self, now: u64) -> (r: Vec<MacEntry>)
        requires
            mac_table_wf(old(self)@),
        ensures
            mac_table_wf(final(self)@),
            final(self)@ == kept(old(self)@, kept_by(MacFilter::FreshAt(now))),
            keyed_entries(r@) == final(self)@,
    {
        self.retain_where(MacFilter::FreshAt(now));
        self.entries.clone()
    }

    /// Forget every address learned on `interface`.
    pub fn forget_interface(&mut self, interface: InterfaceId)
        requires
            mac_table_wf(old(self)@),
        ensures
            mac_table_wf(final(self)@),
            final(self)@ == kept(old(self)@, kept_by(MacFilter::OffInterface(interface))),
    {
        self.retain_where(MacFilter::OffInterface(interface));
    }

    /// Forget every address learned in `vlan`.
    pub fn forget_vlan(&mut self, vlan: VlanId)
        requires
            mac_table_wf(old(self)@),
        ensures
            mac_table_wf(final(self)@),
            final(self)@ == kept(old(self)@, kept_by(MacFilter::OffVlan(vlan@))),
    {
        self.retain_where(MacFilter::OffVlan(vlan.get()));
    }
}

/// A unicast address learned at `learned` is found, on the port it was learned on, until
/// the lifetime has passed, and not after.
pub proof fn lemma_mac_aging(
    s: Seq<((u16, MacAddress), MacEntry)>,
    vlan: VlanId,
    address: MacAddress,
    interface: InterfaceId,
    learned: u64,
    now: u64,
)
    requires
        mac_table_wf(s),
        learnable(address),
        learned <= now,
    ensures
        mac_lookup_spec(mac_learn_spec(s, vlan, address, interface, learned), vlan@, address, now).1 == if now
            - learned < MAC_LIFETIME_US {
            Some(MacEntry { vlan, address, interface, learned_at: learned })
        } else {
            None
        },
{
    let e = MacEntry { vlan, address, interface, learned_at: learned };
    lemma_put_unique(s, (vlan@, address), e);
    crate::keyed::lemma_put_holds(s, (vlan@, address), e);
    crate::keyed::lemma_value_of(put(s, (vlan@, address), e), (vlan@, address), e);
}

/// Learning keeps the table well formed, and a group or all-zero source is never learned.
pub proof fn lemma_learn_keeps_table(
    s: Seq<((u16, MacAddress), MacEntry)>,
    vlan: VlanId,
    address: MacAddress,
    interface: InterfaceId,
    now: u64,
)
    requires
        mac_table_wf(s),
    ensures
        mac_table_wf(mac_learn_spec(s, vlan, address, interface, now)),
        !learnable(address) ==> mac_learn_spec(s, vlan, address, interface, now) == s,
{
    let e = MacEntry { vlan, address, interface, learned_at: now };
    lemma_put_unique(s, (vlan@, address), e);
    let n = put(s, (vlan@, address), e);
    assert forall|i: int| 0 <= i < n.len() implies (#[trigger] n[i]).0 == mac_key(n[i].1) by {
        if has_key(s, (vlan@, address)) && i != key_index(s, (vlan@, address)) {
            assert(n[i] == s[i]);
        } else if !has_key(s, (vlan@, address)) && i < s.len() {
            assert(n[i] == s[i]);
        }
    }
}

/// After forgetting a port, no entry points at it, and every entry for another port stays.
pub proof fn lemma_forget_interface(s: Seq<((u16, MacAddress), MacEntry)>, interface: InterfaceId)
    requires
        mac_table_wf(s),
    ensures
        forall|i: int|
            0 <= i < kept(s, kept_by(MacFilter::OffInterface(interface))).len() ==> (#[trigger] kept(
                s,
                kept_by(MacFilter::OffInterface(interface)),
            )[i]).1.interface != interface,
        forall|i: int|
            0 <= i < s.len() && (#[trigger] s[i]).1.interface != interface ==> kept(
                s,
                kept_by(MacFilter::OffInterface(interface)),
            ).contains(s[i]),
{
    let f = kept_by(MacFilter::OffInterface(interface));
    lemma_kept(s, f);
    let out = kept(s, f);
    assert forall|i: int| 0 <= i < out.len() implies (#[trigger] out[i]).1.interface != interface by {
        lemma_kept_only(s, f, i);
    }
    assert forall|i: int| 0 <= i < s.len() && (#[trigger] s[i]).1.interface != interface implies out.contains(s[i]) by {
        assert(f(s[i].1));
    }
}

/// Every entry `kept` keeps satisfies the predicate.
proof fn lemma_kept_only<K, V>(s: Seq<(K, V)>, keep: spec_fn(V) -> bool, i: int)
    requires
        0 <= i < kept(s, keep).len(),
    ensures
        keep(kept(s, keep)[i].1),
    decreases s.len(),
{
    if s.len() > 0 {
        let rest = kept(s.drop_last(), keep);
        if i < rest.len() {
            lemma_kept_only(s.drop_last(), keep, i);
        }
    }
}

} // verus!
