//! What a BGP speaker sends a peer on its selected session: the routes it advertised that it
//! no longer wants are withdrawn, then the wanted routes the peer does not have yet are
//! announced, both in prefix order and only while the session's send queue has room.
use crate::bgp_routes::{prefixes_view, AttributesView, BgpAttributes};
use crate::ipv4::Ipv4Network;
use crate::keyed::{has_key, key_index, keys_unique, lemma_key_index, value_of};
use vstd::prelude::*;

verus! {

/// How many messages a session's send queue holds.
pub const BGP_TX_LIMIT: usize = 32;

/// Whether prefix `a` comes before `b`: by network address, then by length.
pub open spec fn prefix_before(a: (u32, u8), b: (u32, u8)) -> bool {
    a.0 < b.0 || (a.0 == b.0 && a.1 < b.1)
}

/// Routes in strictly increasing prefix order.
pub open spec fn prefixes_sorted(s: Seq<((u32, u8), AttributesView)>) -> bool {
    forall|i: int, j: int| 0 <= i < j < s.len() ==> prefix_before(#[trigger] s[i].0, #[trigger] s[j].0)
}

/// Whether a new prefix `k` belongs at position `p` of routes in prefix order.
pub open spec fn prefix_slot(s: Seq<((u32, u8), AttributesView)>, k: (u32, u8), p: int) -> bool {
    &&& 0 <= p <= s.len()
    &&& forall|j: int| 0 <= j < p ==> prefix_before((#[trigger] s[j]).0, k)
    &&& forall|j: int| p <= j < s.len() ==> prefix_before(k, (#[trigger] s[j]).0)
}

/// Where a new prefix `k` goes among routes in prefix order.
pub open spec fn prefix_position(s: Seq<((u32, u8), AttributesView)>, k: (u32, u8)) -> int {
    if exists|p: int| prefix_slot(s, k, p) {
        choose|p: int| prefix_slot(s, k, p)
    } else {
        s.len() as int
    }
}

/// Routes in prefix order after storing `a` under `k`, replacing what `k` held.
pub open spec fn prefix_put(s: Seq<((u32, u8), AttributesView)>, k: (u32, u8), a: AttributesView) -> Seq<((u32, u8), AttributesView)> {
    if has_key(s, k) {
        s.update(key_index(s, k), (k, a))
    } else {
        s.insert(prefix_position(s, k), (k, a))
    }
}

/// The advertised routes that stay and the prefixes withdrawn, going through the advertised
/// routes `a` in order: one not wanted in `desired` is withdrawn while fewer than `room`
/// withdrawals were made.
pub open spec fn withdraw_all(
    a: Seq<((u32, u8), AttributesView)>,
    desired: Seq<((u32, u8), AttributesView)>,
    room: nat,
) -> (Seq<((u32, u8), AttributesView)>, Seq<(u32, u8)>)
    decreases a.len(),
{
    if a.len() == 0 {
        (a, Seq::empty())
    } else {
        let (kept, gone) = withdraw_all(a.drop_last(), desired, room);
        let e = a.last();
        if has_key(desired, e.0) || gone.len() >= room {
            (kept.push(e), gone)
        } else {
            (kept, gone.push(e.0))
        }
    }
}

/// The advertised routes and the announcements, going through the wanted routes `ds` in
/// order: one the peer does not have with these attributes is announced while fewer than
/// `room` announcements were made.
pub open spec fn announce_all(
    a: Seq<((u32, u8), AttributesView)>,
    ds: Seq<((u32, u8), AttributesView)>,
    room: nat,
) -> (Seq<((u32, u8), AttributesView)>, Seq<((u32, u8), AttributesView)>)
    decreases ds.len(),
{
    if ds.len() == 0 {
        (a, Seq::empty())
    } else {
        let (a1, sent) = announce_all(a, ds.drop_last(), room);
        let d = ds.last();
        if sent.len() >= room {
            (a1, sent)
        } else if has_key(a1, d.0) && value_of(a1, d.0) == d.1 {
            (a1, sent)
        } else {
            (prefix_put(a1, d.0, d.1), sent.push(d))
        }
    }
}

/// Room left in a send queue holding `queued` messages: up to half the queue.
pub open spec fn room_for(queued: nat) -> nat {
    if queued >= BGP_TX_LIMIT / 2 {
        0
    } else {
        (BGP_TX_LIMIT / 2 - queued) as nat
    }
}

/// The advertised routes, the withdrawn prefixes and the announced routes after one round,
/// for a send queue holding `queued` messages: withdrawals first, then announcements in the
/// room they leave.
pub open spec fn advertise_spec(
    a: Seq<((u32, u8), AttributesView)>,
    desired: Seq<((u32, u8), AttributesView)>,
    queued: nat,
) -> (Seq<((u32, u8), AttributesView)>, Seq<(u32, u8)>, Seq<((u32, u8), AttributesView)>) {
    let room = room_for(queued);
    let (kept, gone) = withdraw_all(a, desired, room);
    let (a2, sent) = announce_all(kept, desired, (room - gone.len()) as nat);
    (a2, gone, sent)
}

/// At most `room` prefixes are withdrawn.
proof fn lemma_withdraw_room(a: Seq<((u32, u8), AttributesView)>, desired: Seq<((u32, u8), AttributesView)>, room: nat)
    ensures
        withdraw_all(a, desired, room).1.len() <= room,
    decreases a.len(),
{
    if a.len() > 0 {
        lemma_withdraw_room(a.drop_last(), desired, room);
    }
}

/// Keys in strict order are unique.
proof fn lemma_prefixes_unique(s: Seq<((u32, u8), AttributesView)>)
    requires
        prefixes_sorted(s),
    ensures
        keys_unique(s),
{
    assert forall|i: int, j: int| 0 <= i < j < s.len() implies #[trigger] s[i].0 != #[trigger] s[j].0 by {
        assert(prefix_before(s[i].0, s[j].0));
    }
}

/// A prefix not stored has a position.
proof fn lemma_prefix_slot_exists(s: Seq<((u32, u8), AttributesView)>, k: (u32, u8))
    requires
        prefixes_sorted(s),
        !has_key(s, k),
    ensures
        exists|p: int| prefix_slot(s, k, p),
    decreases s.len(),
{
    if s.len() == 0 {
        assert(prefix_slot(s, k, 0));
    } else {
        let init = s.drop_last();
        assert(prefixes_sorted(init)) by {
            assert forall|i: int, j: int| 0 <= i < j < init.len() implies prefix_before(#[trigger] init[i].0, #[trigger] init[j].0) by {
                assert(init[i] == s[i] && init[j] == s[j]);
            }
        }
        assert(!has_key(init, k)) by {
            if has_key(init, k) {
                let j = choose|j: int| 0 <= j < init.len() && #[trigger] init[j].0 == k;
                assert(s[j].0 == k);
            }
        }
        let last = s.len() - 1;
        assert(s[last].0 != k);
        if prefix_before(s[last].0, k) {
            assert forall|j: int| 0 <= j < s.len() implies prefix_before((#[trigger] s[j]).0, k) by {
                if j < last {
                    assert(prefix_before(s[j].0, s[last].0));
                }
            }
            assert(prefix_slot(s, k, s.len() as int));
        } else {
            lemma_prefix_slot_exists(init, k);
            let p = choose|p: int| prefix_slot(init, k, p);
            assert forall|j: int| p <= j < s.len() implies prefix_before(k, (#[trigger] s[j]).0) by {
                if j < last {
                    assert(s[j] == init[j]);
                }
            }
            assert forall|j: int| 0 <= j < p implies prefix_before((#[trigger] s[j]).0, k) by {
                assert(s[j] == init[j]);
            }
            assert(prefix_slot(s, k, p));
        }
    }
}

/// The position of a new prefix is unique.
proof fn lemma_prefix_slot_unique(s: Seq<((u32, u8), AttributesView)>, k: (u32, u8), p: int)
    requires
        prefix_slot(s, k, p),
    ensures
        prefix_position(s, k) == p,
{
    let q = choose|q: int| prefix_slot(s, k, q);
    if q < p {
        assert(prefix_before(s[q].0, k) && prefix_before(k, s[q].0));
    } else if p < q {
        assert(prefix_before(s[p].0, k) && prefix_before(k, s[p].0));
    }
}

/// Storing in prefix order keeps the order.
proof fn lemma_prefix_put_sorted(s: Seq<((u32, u8), AttributesView)>, k: (u32, u8), a: AttributesView)
    requires
        prefixes_sorted(s),
    ensures
        prefixes_sorted(prefix_put(s, k, a)),
{
    lemma_prefixes_unique(s);
    let n = prefix_put(s, k, a);
    if has_key(s, k) {
        let i = key_index(s, k);
        assert forall|x: int, y: int| 0 <= x < y < n.len() implies prefix_before(#[trigger] n[x].0, #[trigger] n[y].0) by {
            assert(n[x].0 == s[x].0 && n[y].0 == s[y].0);
        }
    } else {
        lemma_prefix_slot_exists(s, k);
        let p = prefix_position(s, k);
        assert(prefix_slot(s, k, p));
        assert forall|x: int, y: int| 0 <= x < y < n.len() implies prefix_before(#[trigger] n[x].0, #[trigger] n[y].0) by {
            if y < p {
                assert(n[x] == s[x] && n[y] == s[y]);
            } else if y == p {
                assert(n[x] == s[x]);
            } else if x < p {
                assert(n[x] == s[x] && n[y] == s[y - 1]);
            } else if x == p {
                assert(n[y] == s[y - 1]);
            } else {
                assert(n[x] == s[x - 1] && n[y] == s[y - 1]);
            }
        }
    }
}

/// Routes as values.
pub open spec fn routes_view(s: Seq<(Ipv4Network, BgpAttributes)>) -> Seq<((u32, u8), AttributesView)> {
    s.map_values(|e: (Ipv4Network, BgpAttributes)| (e.0@, e.1@))
}

/// The routes advertised to a peer on its session, in prefix order.
#[derive(Debug)]
pub struct BgpAdvertised {
    routes: Vec<(Ipv4Network, BgpAttributes)>,
}

impl View for BgpAdvertised {
    type V = Seq<((u32, u8), AttributesView)>;

    closed spec fn view(&self) -> Seq<((u32, u8), AttributesView)> {
        routes_view(self.routes@)
    }
}

/// Whether two lists of numbers are equal.
fn same_numbers(a: &Vec<u32>, b: &Vec<u32>) -> (r: bool)
    ensures
        r == (a@ == b@),
{
    if a.len() != b.len() {
        return false;
    }
    let mut i: usize = 0;
    while i < a.len()
        invariant
            i <= a@.len(),
            a@.len() == b@.len(),
            forall|j: int| 0 <= j < i ==> a@[j] == b@[j],
        decreases a@.len() - i,
    {
        if a[i] != b[i] {
            return false;
        }
        i = i + 1;
    }
    assert(a@ =~= b@);
    true
}

/// Whether two lists of addresses are equal.
fn same_addresses(a: &Vec<crate::ipv4::Ipv4Addr>, b: &Vec<crate::ipv4::Ipv4Addr>) -> (r: bool)
    ensures
        r == (a@ == b@),
{
    if a.len() != b.len() {
        return false;
    }
    let mut i: usize = 0;
    while i < a.len()
        invariant
            i <= a@.len(),
            a@.len() == b@.len(),
            forall|j: int| 0 <= j < i ==> a@[j] == b@[j],
        decreases a@.len() - i,
    {
        if a[i].0 != b[i].0 {
            return false;
        }
        i = i + 1;
    }
    assert(a@ =~= b@);
    true
}

/// Whether two optional numbers are equal.
fn same_option(a: Option<u32>, b: Option<u32>) -> (r: bool)
    ensures
        r == (a == b),
{
    match (a, b) {
        (Some(x), Some(y)) => x == y,
        (None, None) => true,
        _ => false,
    }
}

/// Whether two sets of attributes are equal.
fn same_attributes(a: &BgpAttributes, b: &BgpAttributes) -> (r: bool)
    ensures
        r == (a@ == b@),
{
    let same_originator = match (a.originator_id, b.originator_id) {
        (Some(x), Some(y)) => x.0 == y.0,
        (None, None) => true,
        _ => false,
    };
    let r = same_numbers(&a.as_path, &b.as_path) && a.next_hop.0 == b.next_hop.0
        && same_option(a.local_preference, b.local_preference) && same_option(a.med, b.med) && same_originator
        && same_addresses(&a.cluster_list, &b.cluster_list);
    proof {
        if !r {
            if a@ == b@ {
                assert(a@.as_path == b@.as_path);
                assert(a@.cluster_list == b@.cluster_list);
            }
        }
    }
    r
}

/// Whether prefix `a` comes before `b`.
fn network_before(a: Ipv4Network, b: Ipv4Network) -> (r: bool)
    ensures
        r == prefix_before(a@, b@),
{
    a.address().0 < b.address().0 || (a.address().0 == b.address().0 && a.prefix_len() < b.prefix_len())
}

/// Where `k` is among `routes`.
fn find_prefix(routes: &Vec<(Ipv4Network, BgpAttributes)>, k: Ipv4Network) -> (r: Option<usize>)
    requires
        keys_unique(routes_view(routes@)),
    ensures
        match r {
            Some(i) => i < routes@.len() && has_key(routes_view(routes@), k@) && key_index(routes_view(routes@), k@) == i,
            None => !has_key(routes_view(routes@), k@),
        },
{
    let ghost v = routes_view(routes@);
    let mut i: usize = 0;
    while i < routes.len()
        invariant
            v == routes_view(routes@),
            keys_unique(v),
            i <= v.len(),
            forall|j: int| 0 <= j < i ==> #[trigger] v[j].0 != k@,
        decreases v.len() - i,
    {
        let p = routes[i].0;
        assert(v[i as int].0 == p@);
        if p.address().0 == k.address().0 && p.prefix_len() == k.prefix_len() {
            proof {
                lemma_key_index(v, i as int);
            }
            return Some(i);
        }
        i = i + 1;
    }
    None
}

impl BgpAdvertised {
    /// Nothing advertised.
    pub fn new() -> (r: BgpAdvertised)
        ensures
            r@ == Seq::<((u32, u8), AttributesView)>::empty(),
    {
        let r = BgpAdvertised { routes: Vec::new() };
        assert(r@ =~= Seq::<((u32, u8), AttributesView)>::empty());
        r
    }

    /// The advertised routes, in prefix order.
    pub fn routes(&self) -> (r: &[(Ipv4Network, BgpAttributes)])
        ensures
            routes_view(r@) == self@,
    {
        self.routes.as_slice()
    }
}

/// One round of advertising to a peer on its session: `desired` are the routes to advertise,
/// in prefix order, and `queued` the messages waiting in the session's send queue. Withdraws
/// the advertised routes no longer wanted, then announces the wanted routes the peer does not
/// have with these attributes, while the queue is under half full; returns the withdrawn
/// prefixes and the announced routes, one UPDATE message each.
pub fn bgp_advertise_updates(
    advertised: &mut BgpAdvertised,
    desired: &Vec<(Ipv4Network, BgpAttributes)>,
    queued: usize,
) -> (r: (Vec<Ipv4Network>, Vec<(Ipv4Network, BgpAttributes)>))
    requires
        prefixes_sorted(old(advertised)@),
        prefixes_sorted(routes_view(desired@)),
    ensures
        prefixes_sorted(final(advertised)@),
        (final(advertised)@, prefixes_view(r.0@), routes_view(r.1@)) == advertise_spec(
            old(advertised)@,
            routes_view(desired@),
            queued as nat,
        ),
{
    let ghost a0 = advertised@;
    let ghost ds = routes_view(desired@);
    proof {
        lemma_prefixes_unique(ds);
    }
    let half: usize = BGP_TX_LIMIT / 2;
    let room: usize = if queued >= half { 0 } else { half - queued };
    let mut kept: Vec<(Ipv4Network, BgpAttributes)> = Vec::new();
    let mut gone: Vec<Ipv4Network> = Vec::new();
    let mut i: usize = 0;
    while i < advertised.routes.len()
        invariant
            i <= a0.len(),
            a0 == advertised@,
            ds == routes_view(desired@),
            keys_unique(ds),
            prefixes_sorted(a0),
            (routes_view(kept@), prefixes_view(gone@)) == withdraw_all(a0.take(i as int), ds, room as nat),
            prefixes_sorted(routes_view(kept@)),
            forall|x: int| 0 <= x < kept@.len() ==> exists|j: int| 0 <= j < i && #[trigger] routes_view(kept@)[x] == a0[j],
        decreases a0.len() - i,
    {
        let ghost kv = routes_view(kept@);
        let ghost gv = prefixes_view(gone@);
        let p = advertised.routes[i].0;
        assert(a0[i as int] == (p@, advertised.routes@[i as int].1@));
        proof {
            assert(a0.take(i + 1).drop_last() =~= a0.take(i as int));
            assert(a0.take(i + 1).last() == a0[i as int]);
        }
        let wanted = find_prefix(desired, p).is_some();
        if wanted || gone.len() >= room {
            let c = advertised.routes[i].1.copy();
            kept.push((p, c));
            proof {
                assert(routes_view(kept@) =~= kv.push(a0[i as int]));
                let nv = routes_view(kept@);
                assert forall|x: int| 0 <= x < nv.len() implies exists|j: int| 0 <= j < i + 1 && #[trigger] nv[x] == a0[j] by {
                    if x < kv.len() {
                        assert(nv[x] == kv[x]);
                        let j = choose|j: int| 0 <= j < i && #[trigger] kv[x] == a0[j];
                        assert(nv[x] == a0[j]);
                    } else {
                        assert(nv[x] == a0[i as int]);
                    }
                }
                assert forall|x: int, y: int| 0 <= x < y < nv.len() implies prefix_before(#[trigger] nv[x].0, #[trigger] nv[y].0) by {
                    if y < kv.len() {
                        assert(nv[x] == kv[x] && nv[y] == kv[y]);
                    } else {
                        assert(nv[x] == kv[x]);
                        let j = choose|j: int| 0 <= j < i && #[trigger] kv[x] == a0[j];
                        assert(prefix_before(a0[j].0, a0[i as int].0));
                    }
                }
            }
        } else {
            gone.push(p);
            proof {
                assert(prefixes_view(gone@) =~= gv.push(p@));
            }
        }
        i = i + 1;
    }
    proof {
        assert(a0.take(a0.len() as int) =~= a0);
    }
    advertised.routes = kept;
    let ghost k0 = advertised@;
    proof {
        lemma_withdraw_room(a0, ds, room as nat);
    }
    let room2: usize = room - gone.len();
    assert(prefixes_view(gone@).len() == gone@.len());
    let mut sent: Vec<(Ipv4Network, BgpAttributes)> = Vec::new();
    let mut j: usize = 0;
    while j < desired.len()
        invariant
            j <= ds.len(),
            ds == routes_view(desired@),
            prefixes_sorted(advertised@),
            (advertised@, routes_view(sent@)) == announce_all(k0, ds.take(j as int), room2 as nat),
        decreases ds.len() - j,
    {
        let ghost av = advertised@;
        let ghost sv = routes_view(sent@);
        let d = desired[j].0;
        proof {
            assert(ds.take(j + 1).drop_last() =~= ds.take(j as int));
            assert(ds.take(j + 1).last() == ds[j as int]);
            assert(ds[j as int] == (d@, desired@[j as int].1@));
            lemma_prefixes_unique(av);
        }
        if sent.len() < room2 {
            match find_prefix(&advertised.routes, d) {
                Some(k) => {
                    if !same_attributes(&advertised.routes[k].1, &desired[j].1) {
                        let c = desired[j].1.copy();
                        advertised.routes.set(k, (d, c));
                        proof {
                            assert(advertised@ =~= av.update(k as int, (d@, desired@[j as int].1@)));
                            lemma_prefix_put_sorted(av, d@, desired@[j as int].1@);
                        }
                        let c2 = desired[j].1.copy();
                        sent.push((d, c2));
                        proof {
                            assert(routes_view(sent@) =~= sv.push(ds[j as int]));
                        }
                    }
                },
                None => {
                    let mut q: usize = 0;
                    while q < advertised.routes.len() && network_before(advertised.routes[q].0, d)
                        invariant
                            q <= av.len(),
                            av == advertised@,
                            forall|x: int| 0 <= x < q ==> prefix_before((#[trigger] av[x]).0, d@),
                        decreases av.len() - q,
                    {
                        assert(av[q as int].0 == advertised.routes@[q as int].0@);
                        q = q + 1;
                    }
                    proof {
                        assert forall|x: int| q <= x < av.len() implies prefix_before(d@, (#[trigger] av[x]).0) by {
                            assert(av[q as int].0 == advertised.routes@[q as int].0@);
                            assert(!prefix_before(av[q as int].0, d@));
                            assert(av[q as int].0 != d@);
                            if x > q {
                                assert(prefix_before(av[q as int].0, av[x].0));
                            }
                        }
                        assert(prefix_slot(av, d@, q as int));
                        lemma_prefix_slot_unique(av, d@, q as int);
                        lemma_prefix_put_sorted(av, d@, desired@[j as int].1@);
                    }
                    let c = desired[j].1.copy();
                    advertised.routes.insert(q, (d, c));
                    proof {
                        assert(advertised@ =~= av.insert(q as int, (d@, desired@[j as int].1@)));
                    }
                    let c2 = desired[j].1.copy();
                    sent.push((d, c2));
                    proof {
                        assert(routes_view(sent@) =~= sv.push(ds[j as int]));
                    }
                },
            }
        }
        j = j + 1;
    }
    proof {
        assert(ds.take(ds.len() as int) =~= ds);
    }
    (gone, sent)
}

} // verus!
