//! The operator's show reports of a device: its learned tables rendered as text, each line
//! naming the interface an entry belongs to.
use crate::decimal::decimal_text;
use crate::inventory::{device_wf, slot, Device, DeviceView};
use crate::keyed::{kept, lemma_kept, lemma_kept_satisfy};
use crate::mac::mac_text;
use crate::network::{arp_fresh, arp_wf, fresh_at, ArpCache, ArpEntry};
use crate::report::{
    finish, ipv4_chars, ipv4_text, left_aligned, number_chars, push_chars, push_left, push_right, push_str,
    right_aligned,
};
use crate::routing::InterfaceId;
use crate::switching::{kept_by, mac_fresh, mac_table_wf, MacEntry, MacFilter, MacTable};
use crate::mac::MacAddress;
use crate::text::str_chars;
use vstd::prelude::*;

verus! {

/// The name of interface `id`, empty when the device has no such interface.
pub open spec fn name_of(v: DeviceView, id: InterfaceId) -> Seq<char> {
    match slot(v, id) {
        Some(i) => v.interfaces[i].1.name,
        None => Seq::empty(),
    }
}

/// Whole minutes from `then` to `now`, zero when `now` lies before it.
pub open spec fn minutes_since(then: u64, now: u64) -> nat {
    (if now >= then {
        (now - then) as nat
    } else {
        0
    }) / 60_000_000
}

/// The heading of the address table report.
pub open spec fn mac_heading() -> Seq<char> {
    "          Mac Address Table\n-------------------------------------------\n\nVlan    Mac Address       Type        Ports\n----    -----------       --------    -----\n"@
}

/// The line of one learned address.
pub open spec fn mac_line(v: DeviceView, e: MacEntry) -> Seq<char> {
    left_aligned(decimal_text(e.vlan@ as nat), 7) + " "@ + left_aligned(mac_text(e.address.0@), 17)
        + " DYNAMIC     "@ + name_of(v, e.interface) + "\n"@
}

/// One line per entry, in table order.
pub open spec fn mac_lines(v: DeviceView, s: Seq<((u16, MacAddress), MacEntry)>) -> Seq<char>
    decreases s.len(),
{
    if s.len() == 0 {
        Seq::empty()
    } else {
        mac_lines(v, s.drop_last()) + mac_line(v, s.last().1)
    }
}

/// The heading of the ARP report.
pub open spec fn arp_heading() -> Seq<char> {
    "Protocol  Address          Age  Hardware Addr     Interface\n"@
}

/// The line of one mapping at `now`; its age is in whole minutes.
pub open spec fn arp_line(v: DeviceView, e: ArpEntry, now: u64) -> Seq<char> {
    "Internet  "@ + left_aligned(ipv4_text(e.address), 16) + " "@ + right_aligned(
        decimal_text(minutes_since(e.learned_at, now)),
        3,
    ) + "  "@ + left_aligned(mac_text(e.mac_address.0@), 17) + " "@ + name_of(v, e.interface) + "\n"@
}

/// One line per mapping, in address order.
pub open spec fn arp_lines(v: DeviceView, s: Seq<(u32, ArpEntry)>, now: u64) -> Seq<char>
    decreases s.len(),
{
    if s.len() == 0 {
        Seq::empty()
    } else {
        arp_lines(v, s.drop_last(), now) + arp_line(v, s.last().1, now)
    }
}

impl Device {
    /// The characters of the name of interface `id`.
    fn name_chars(&self, id: InterfaceId) -> (r: Vec<char>)
        requires
            device_wf(self@),
            slot(self@, id) is Some,
        ensures
            r@ == name_of(self@, id),
    {
        match self.interface(id) {
            Some((_, config)) => str_chars(config.name.as_str()),
            None => Vec::new(),
        }
    }

    /// Drop the stale addresses of `table`, then list the others in table order under a
    /// heading, with the name of the interface each was learned on.
    pub fn show_mac_address_table(&self, table: &mut MacTable, now: u64) -> (r: String)
        requires
            device_wf(self@),
            mac_table_wf(old(table)@),
            forall|i: int|
                0 <= i < old(table)@.len() && mac_fresh(old(table)@[i].1, now) ==> slot(
                    self@,
                    (#[trigger] old(table)@[i]).1.interface,
                ) is Some,
        ensures
            mac_table_wf(final(table)@),
            final(table)@ == kept(old(table)@, kept_by(MacFilter::FreshAt(now))),
            r@ == mac_heading() + mac_lines(self@, final(table)@),
    {
        let ghost before = table@;
        let entries = table.mac_entries(now);
        let ghost after = table@;
        proof {
            lemma_kept(before, kept_by(MacFilter::FreshAt(now)));
            lemma_kept_satisfy(before, kept_by(MacFilter::FreshAt(now)));
            assert forall|i: int| 0 <= i < after.len() implies slot(self@, (#[trigger] after[i]).1.interface)
                is Some by {
                assert(before.contains(after[i]));
                let j = choose|j: int| 0 <= j < before.len() && before[j] == after[i];
                assert(kept_by(MacFilter::FreshAt(now))(after[i].1));
                assert(mac_fresh(before[j].1, now));
            }
        }
        let mut out: Vec<char> = Vec::new();
        push_str(
            &mut out,
            "          Mac Address Table\n-------------------------------------------\n\nVlan    Mac Address       Type        Ports\n----    -----------       --------    -----\n",
        );
        let mut i: usize = 0;
        while i < entries.len()
            invariant
                device_wf(self@),
                after == crate::switching::keyed_entries(entries@),
                forall|k: int| 0 <= k < after.len() ==> slot(self@, (#[trigger] after[k]).1.interface) is Some,
                i <= entries@.len(),
                out@ == mac_heading() + mac_lines(self@, after.take(i as int)),
            decreases entries@.len() - i,
        {
            let e = entries[i];
            proof {
                assert(after.take(i + 1).drop_last() =~= after.take(i as int));
                assert(after[i as int].1 == e);
            }
            push_left(&mut out, &number_chars(e.vlan.get() as u64), 7);
            push_str(&mut out, " ");
            push_left(&mut out, &str_chars(e.address.to_string().as_str()), 17);
            push_str(&mut out, " DYNAMIC     ");
            push_chars(&mut out, &self.name_chars(e.interface));
            push_str(&mut out, "\n");
            proof {
                assert(out@ =~= mac_heading() + mac_lines(self@, after.take(i as int)) + mac_line(self@, e));
            }
            i = i + 1;
        }
        proof {
            assert(after.take(i as int) =~= after);
        }
        finish(out)
    }

    /// Drop the stale mappings of `cache`, then list the others in address order under a
    /// heading, with their age in whole minutes and the name of their interface.
    pub fn show_arp(&self, cache: &mut ArpCache, now: u64) -> (r: String)
        requires
            device_wf(self@),
            arp_wf(old(cache)@),
            forall|i: int|
                0 <= i < old(cache)@.len() && arp_fresh(old(cache)@[i].1, now) ==> slot(
                    self@,
                    (#[trigger] old(cache)@[i]).1.interface,
                ) is Some,
        ensures
            arp_wf(final(cache)@),
            final(cache)@ == kept(old(cache)@, fresh_at(now)),
            r@ == arp_heading() + arp_lines(self@, final(cache)@, now),
    {
        let ghost before = cache@;
        let entries = cache.arp_entries(now);
        let ghost after = cache@;
        proof {
            lemma_kept(before, fresh_at(now));
            lemma_kept_satisfy(before, fresh_at(now));
            assert forall|i: int| 0 <= i < after.len() implies slot(self@, (#[trigger] after[i]).1.interface)
                is Some by {
                assert(before.contains(after[i]));
                let j = choose|j: int| 0 <= j < before.len() && before[j] == after[i];
                assert(fresh_at(now)(after[i].1));
                assert(arp_fresh(before[j].1, now));
            }
        }
        let mut out: Vec<char> = Vec::new();
        push_str(&mut out, "Protocol  Address          Age  Hardware Addr     Interface\n");
        let mut i: usize = 0;
        while i < entries.len()
            invariant
                device_wf(self@),
                entries@.len() == after.len(),
                forall|k: int| 0 <= k < after.len() ==> entries@[k] == (#[trigger] after[k]).1,
                forall|k: int| 0 <= k < after.len() ==> slot(self@, (#[trigger] after[k]).1.interface) is Some,
                i <= entries@.len(),
                out@ == arp_heading() + arp_lines(self@, after.take(i as int), now),
            decreases entries@.len() - i,
        {
            let e = entries[i];
            proof {
                assert(after.take(i + 1).drop_last() =~= after.take(i as int));
                assert(after[i as int].1 == e);
            }
            let elapsed: u64 = if now >= e.learned_at {
                now - e.learned_at
            } else {
                0
            };
            push_str(&mut out, "Internet  ");
            push_left(&mut out, &ipv4_chars(e.address), 16);
            push_str(&mut out, " ");
            push_right(&mut out, &number_chars(elapsed / 60_000_000), 3);
            push_str(&mut out, "  ");
            push_left(&mut out, &str_chars(e.mac_address.to_string().as_str()), 17);
            push_str(&mut out, " ");
            push_chars(&mut out, &self.name_chars(e.interface));
            push_str(&mut out, "\n");
            proof {
                assert(out@ =~= arp_heading() + arp_lines(self@, after.take(i as int), now) + arp_line(
                    self@,
                    e,
                    now,
                ));
            }
            i = i + 1;
        }
        proof {
            assert(after.take(i as int) =~= after);
        }
        finish(out)
    }
}

} // verus!
