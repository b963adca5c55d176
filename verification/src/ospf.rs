//! The OSPF link-state database of a router: how the LSAs it wants to originate are
//! reconciled with what it has stored. A changed or old LSA is re-originated with the next
//! sequence number, an LSA at the last sequence number is first aged out, self-originated
//! LSAs no longer wanted and LSAs that reached MaxAge are flushed, the database keeps to its
//! limit, and flushed LSAs are purged once every exchange is drained.
use crate::keyed::{
    has_key, key_index, keys_unique, kept, lemma_key_index, lemma_kept, lemma_value_of, value_of,
};
use vstd::prelude::*;

verus! {

/// MaxAge, in seconds: an LSA of this age is being flushed.
pub const LSA_MAX_AGE: u16 = 3600;

/// The age, in seconds, at which an unchanged self-originated LSA is refreshed.
pub const LSA_REFRESH_AGE: u16 = 1800;

/// The largest sequence number.
pub const LSA_MAX_SEQUENCE: i32 = 2147483647;

/// How long a flushed LSA is kept once every exchange is drained: five seconds, in
/// microseconds.
pub const LSA_FLUSH_HOLD_US: u64 = 5_000_000;

/// A link-state advertisement: its type, link-state identifier and advertising router
/// (which together name it), its age in seconds, its sequence number and its encoded body.
#[derive(Debug)]
pub struct OspfLsa {
    pub kind: u8,
    pub link_state_id: u32,
    pub advertising_router: u32,
    pub age: u16,
    pub sequence: i32,
    pub body: Vec<u32>,
}

/// An LSA as a mathematical value.
pub struct LsaView {
    pub kind: u8,
    pub link_state_id: u32,
    pub advertising_router: u32,
    pub age: u16,
    pub sequence: i32,
    pub body: Seq<u32>,
}

impl View for OspfLsa {
    type V = LsaView;

    open spec fn view(&self) -> LsaView {
        LsaView {
            kind: self.kind,
            link_state_id: self.link_state_id,
            advertising_router: self.advertising_router,
            age: self.age,
            sequence: self.sequence,
            body: self.body@,
        }
    }
}

/// An LSA in the database, with the time (microseconds) it was installed.
#[derive(Debug)]
pub struct StoredLsa {
    pub lsa: OspfLsa,
    pub installed: u64,
}

/// A stored LSA as a mathematical value.
pub struct StoredView {
    pub lsa: LsaView,
    pub installed: u64,
}

impl View for StoredLsa {
    type V = StoredView;

    open spec fn view(&self) -> StoredView {
        StoredView { lsa: self.lsa@, installed: self.installed }
    }
}

/// The database key of an LSA in `area`: the area, type, identifier and advertising router.
pub open spec fn lsa_key(area: u32, l: LsaView) -> (u32, u8, u32, u32) {
    (area, l.kind, l.link_state_id, l.advertising_router)
}

/// The stored LSAs of a router, each under its own key.
#[derive(Debug)]
pub struct LsaDatabase {
    entries: Vec<((u32, u8, u32, u32), StoredLsa)>,
}

/// Keyed entries as mathematical values.
pub open spec fn entries_view(s: Seq<((u32, u8, u32, u32), StoredLsa)>) -> Seq<((u32, u8, u32, u32), StoredView)> {
    s.map_values(|e: ((u32, u8, u32, u32), StoredLsa)| (e.0, e.1@))
}

/// Keyed LSAs as mathematical values.
pub open spec fn keyed_view(s: Seq<((u32, u8, u32, u32), OspfLsa)>) -> Seq<((u32, u8, u32, u32), LsaView)> {
    s.map_values(|e: ((u32, u8, u32, u32), OspfLsa)| (e.0, e.1@))
}

/// LSAs to flood, each with its area, as mathematical values.
pub open spec fn flood_view(s: Seq<(u32, OspfLsa)>) -> Seq<(u32, LsaView)> {
    s.map_values(|e: (u32, OspfLsa)| (e.0, e.1@))
}

impl View for LsaDatabase {
    type V = Seq<((u32, u8, u32, u32), StoredView)>;

    closed spec fn view(&self) -> Seq<((u32, u8, u32, u32), StoredView)> {
        entries_view(self.entries@)
    }
}


/// Whether LSA key `a` comes before `b`: by area, type, link-state identifier, then
/// advertising router.
pub open spec fn lsa_key_before(a: (u32, u8, u32, u32), b: (u32, u8, u32, u32)) -> bool {
    ||| a.0 < b.0
    ||| a.0 == b.0 && a.1 < b.1
    ||| a.0 == b.0 && a.1 == b.1 && a.2 < b.2
    ||| a.0 == b.0 && a.1 == b.1 && a.2 == b.2 && a.3 < b.3
}

/// Stored LSAs in strictly increasing key order.
pub open spec fn lsa_sorted(d: Seq<((u32, u8, u32, u32), StoredView)>) -> bool {
    forall|i: int, j: int| 0 <= i < j < d.len() ==> lsa_key_before(#[trigger] d[i].0, #[trigger] d[j].0)
}

/// Whether a new key `k` belongs at position `p` of stored LSAs in key order.
pub open spec fn lsa_slot(d: Seq<((u32, u8, u32, u32), StoredView)>, k: (u32, u8, u32, u32), p: int) -> bool {
    &&& 0 <= p <= d.len()
    &&& forall|j: int| 0 <= j < p ==> lsa_key_before((#[trigger] d[j]).0, k)
    &&& forall|j: int| p <= j < d.len() ==> lsa_key_before(k, (#[trigger] d[j]).0)
}

/// Stored LSAs in key order after storing `v` under `k`, replacing what `k` held.
pub open spec fn lsa_put(
    d: Seq<((u32, u8, u32, u32), StoredView)>,
    k: (u32, u8, u32, u32),
    v: StoredView,
) -> Seq<((u32, u8, u32, u32), StoredView)> {
    if has_key(d, k) {
        d.update(key_index(d, k), (k, v))
    } else {
        d.insert(lsa_position(d, k), (k, v))
    }
}

/// Where a new key `k` goes among stored LSAs in key order.
pub open spec fn lsa_position(d: Seq<((u32, u8, u32, u32), StoredView)>, k: (u32, u8, u32, u32)) -> int {
    if exists|p: int| lsa_slot(d, k, p) {
        choose|p: int| lsa_slot(d, k, p)
    } else {
        d.len() as int
    }
}

/// Keys in strict order are unique.
proof fn lemma_lsa_sorted_unique(d: Seq<((u32, u8, u32, u32), StoredView)>)
    requires
        lsa_sorted(d),
    ensures
        keys_unique(d),
{
    assert forall|i: int, j: int| 0 <= i < j < d.len() implies #[trigger] d[i].0 != #[trigger] d[j].0 by {
        assert(lsa_key_before(d[i].0, d[j].0));
    }
}

/// A key not stored has a position.
proof fn lemma_lsa_slot_exists(d: Seq<((u32, u8, u32, u32), StoredView)>, k: (u32, u8, u32, u32))
    requires
        lsa_sorted(d),
        !has_key(d, k),
    ensures
        exists|p: int| lsa_slot(d, k, p),
    decreases d.len(),
{
    if d.len() == 0 {
        assert(lsa_slot(d, k, 0));
    } else {
        let init = d.drop_last();
        assert(lsa_sorted(init)) by {
            assert forall|i: int, j: int| 0 <= i < j < init.len() implies lsa_key_before(#[trigger] init[i].0, #[trigger] init[j].0) by {
                assert(init[i] == d[i] && init[j] == d[j]);
            }
        }
        assert(!has_key(init, k)) by {
            if has_key(init, k) {
                let j = choose|j: int| 0 <= j < init.len() && #[trigger] init[j].0 == k;
                assert(d[j].0 == k);
            }
        }
        let last = d.len() - 1;
        assert(d[last].0 != k);
        if lsa_key_before(d[last].0, k) {
            assert forall|j: int| 0 <= j < d.len() implies lsa_key_before((#[trigger] d[j]).0, k) by {
                if j < last {
                    assert(lsa_key_before(d[j].0, d[last].0));
                }
            }
            assert(lsa_slot(d, k, d.len() as int));
        } else {
            lemma_lsa_slot_exists(init, k);
            let p = choose|p: int| lsa_slot(init, k, p);
            assert(lsa_key_before(k, d[last].0));
            assert forall|j: int| p <= j < d.len() implies lsa_key_before(k, (#[trigger] d[j]).0) by {
                if j < last {
                    assert(d[j] == init[j]);
                }
            }
            assert forall|j: int| 0 <= j < p implies lsa_key_before((#[trigger] d[j]).0, k) by {
                assert(d[j] == init[j]);
            }
            assert(lsa_slot(d, k, p));
        }
    }
}

/// The position of a new key is unique.
proof fn lemma_lsa_slot_unique(d: Seq<((u32, u8, u32, u32), StoredView)>, k: (u32, u8, u32, u32), p: int)
    requires
        lsa_slot(d, k, p),
    ensures
        lsa_position(d, k) == p,
{
    let q = choose|q: int| lsa_slot(d, k, q);
    if q < p {
        assert(lsa_key_before(d[q].0, k) && lsa_key_before(k, d[q].0));
    } else if p < q {
        assert(lsa_key_before(d[p].0, k) && lsa_key_before(k, d[p].0));
    }
}

/// Storing in key order keeps the order and the other keys, and stores the value.
proof fn lemma_lsa_put(d: Seq<((u32, u8, u32, u32), StoredView)>, k: (u32, u8, u32, u32), v: StoredView)
    requires
        lsa_sorted(d),
    ensures
        lsa_sorted(lsa_put(d, k, v)),
        keys_unique(lsa_put(d, k, v)),
        lsa_put(d, k, v).contains((k, v)),
        lsa_put(d, k, v).len() == d.len() + if has_key(d, k) { 0int } else { 1int },
        forall|o: (u32, u8, u32, u32)| o != k ==> has_key(#[trigger] lsa_put(d, k, v), o) == has_key(d, o),
        forall|o: (u32, u8, u32, u32)| o != k && has_key(d, o) ==> value_of(#[trigger] lsa_put(d, k, v), o) == value_of(d, o),
{
    lemma_lsa_sorted_unique(d);
    let n = lsa_put(d, k, v);
    if has_key(d, k) {
        let i = key_index(d, k);
        assert(n[i] == (k, v));
        assert forall|a: int, b: int| 0 <= a < b < n.len() implies lsa_key_before(#[trigger] n[a].0, #[trigger] n[b].0) by {
            assert(n[a].0 == d[a].0 && n[b].0 == d[b].0);
        }
        lemma_lsa_sorted_unique(n);
        assert forall|o: (u32, u8, u32, u32)| o != k implies has_key(#[trigger] lsa_put(d, k, v), o) == has_key(d, o) by {
            if has_key(n, o) {
                let j = choose|j: int| 0 <= j < n.len() && #[trigger] n[j].0 == o;
                assert(d[j].0 == o);
            }
            if has_key(d, o) {
                let j = choose|j: int| 0 <= j < d.len() && #[trigger] d[j].0 == o;
                assert(n[j].0 == o);
            }
        }
        assert forall|o: (u32, u8, u32, u32)| o != k && has_key(d, o) implies value_of(#[trigger] lsa_put(d, k, v), o) == value_of(d, o) by {
            let j = key_index(d, o);
            lemma_key_index(d, j);
            assert(n[j] == d[j]);
            lemma_key_index(n, j);
        }
    } else {
        lemma_lsa_slot_exists(d, k);
        let p = lsa_position(d, k);
        assert(lsa_slot(d, k, p));
        assert(n =~= d.insert(p, (k, v)));
        assert(n[p] == (k, v));
        assert forall|a: int, b: int| 0 <= a < b < n.len() implies lsa_key_before(#[trigger] n[a].0, #[trigger] n[b].0) by {
            if b < p {
                assert(n[a] == d[a] && n[b] == d[b]);
            } else if b == p {
                assert(n[a] == d[a]);
            } else if a < p {
                assert(n[a] == d[a] && n[b] == d[b - 1]);
            } else if a == p {
                assert(n[b] == d[b - 1]);
            } else {
                assert(n[a] == d[a - 1] && n[b] == d[b - 1]);
            }
        }
        lemma_lsa_sorted_unique(n);
        assert forall|o: (u32, u8, u32, u32)| o != k implies has_key(#[trigger] lsa_put(d, k, v), o) == has_key(d, o) by {
            if has_key(n, o) {
                let j = choose|j: int| 0 <= j < n.len() && #[trigger] n[j].0 == o;
                if j < p {
                    assert(d[j].0 == o);
                } else {
                    assert(d[j - 1].0 == o);
                }
            }
            if has_key(d, o) {
                let j = choose|j: int| 0 <= j < d.len() && #[trigger] d[j].0 == o;
                if j < p {
                    assert(n[j].0 == o);
                } else {
                    assert(n[j + 1].0 == o);
                }
            }
        }
        assert forall|o: (u32, u8, u32, u32)| o != k && has_key(d, o) implies value_of(#[trigger] lsa_put(d, k, v), o) == value_of(d, o) by {
            let j = key_index(d, o);
            lemma_key_index(d, j);
            let j2 = if j < p { j } else { j + 1 };
            assert(n[j2] == d[j]);
            lemma_key_index(n, j2);
        }
    }
}

/// Keeping some stored LSAs keeps them in key order.
proof fn lemma_kept_sorted(d: Seq<((u32, u8, u32, u32), StoredView)>, keep: spec_fn(StoredView) -> bool)
    requires
        lsa_sorted(d),
    ensures
        lsa_sorted(kept(d, keep)),
    decreases d.len(),
{
    if d.len() > 0 {
        let init = d.drop_last();
        assert(lsa_sorted(init)) by {
            assert forall|i: int, j: int| 0 <= i < j < init.len() implies lsa_key_before(#[trigger] init[i].0, #[trigger] init[j].0) by {
                assert(init[i] == d[i] && init[j] == d[j]);
            }
        }
        lemma_kept_sorted(init, keep);
        lemma_kept(init, keep);
        let r = kept(init, keep);
        if keep(d.last().1) {
            let n = r.push(d.last());
            assert forall|a: int, b: int| 0 <= a < b < n.len() implies lsa_key_before(#[trigger] n[a].0, #[trigger] n[b].0) by {
                if b == n.len() - 1 {
                    assert(init.contains(r[a]));
                    let x = choose|x: int| 0 <= x < init.len() && init[x] == r[a];
                    assert(d[x] == init[x]);
                    assert(n[a] == r[a]);
                } else {
                    assert(n[a] == r[a] && n[b] == r[b]);
                }
            }
        }
    }
}

/// A database with each key once, in key order, each LSA under its own key.
pub open spec fn lsa_db_wf(d: Seq<((u32, u8, u32, u32), StoredView)>) -> bool {
    &&& keys_unique(d)
    &&& lsa_sorted(d)
    &&& forall|i: int| 0 <= i < d.len() ==> (#[trigger] d[i]).0 == lsa_key(d[i].0.0, d[i].1.lsa)
}

/// Keyed LSAs with each key once, each LSA under its own key.
pub open spec fn desired_wf(w: Seq<((u32, u8, u32, u32), LsaView)>) -> bool {
    &&& keys_unique(w)
    &&& forall|i: int| 0 <= i < w.len() ==> (#[trigger] w[i]).0 == lsa_key(w[i].0.0, w[i].1)
}

/// Whole seconds from `then` to `now`, zero when `now` lies before it.
pub open spec fn seconds_since(then: u64, now: u64) -> int {
    if now >= then {
        (now - then) / 1_000_000
    } else {
        0
    }
}

/// A stored LSA as it stands at `now`: aged by the whole seconds since it was installed,
/// at most MaxAge.
pub open spec fn current(s: StoredView, now: u64) -> LsaView {
    LsaView {
        age: if s.lsa.age + seconds_since(s.installed, now) > LSA_MAX_AGE {
            LSA_MAX_AGE
        } else {
            (s.lsa.age + seconds_since(s.installed, now)) as u16
        },
        ..s.lsa
    }
}

/// What wanting `lsa` under `key` sends out: nothing when the stored copy has the same body
/// and is younger than the refresh age, or when the stored copy at the last sequence number
/// already has MaxAge; the stored copy at MaxAge when it has the last sequence number; else
/// `lsa`, numbered one above the stored copy when there is one.
pub open spec fn desired_update(
    d: Seq<((u32, u8, u32, u32), StoredView)>,
    key: (u32, u8, u32, u32),
    lsa: LsaView,
    now: u64,
) -> Option<(u32, LsaView)> {
    if has_key(d, key) {
        let old = value_of(d, key);
        if old.lsa.body == lsa.body && current(old, now).age < LSA_REFRESH_AGE {
            None
        } else if old.lsa.sequence == LSA_MAX_SEQUENCE {
            if old.lsa.age == LSA_MAX_AGE {
                None
            } else {
                Some((key.0, LsaView { age: LSA_MAX_AGE, ..current(old, now) }))
            }
        } else {
            Some((key.0, LsaView { sequence: (old.lsa.sequence + 1) as i32, ..lsa }))
        }
    } else {
        Some((key.0, lsa))
    }
}

/// What the wanted LSAs send out, in their order.
pub open spec fn desired_updates(
    d: Seq<((u32, u8, u32, u32), StoredView)>,
    w: Seq<((u32, u8, u32, u32), LsaView)>,
    now: u64,
) -> Seq<(u32, LsaView)>
    decreases w.len(),
{
    if w.len() == 0 {
        Seq::empty()
    } else {
        let rest = desired_updates(d, w.drop_last(), now);
        match desired_update(d, w.last().0, w.last().1, now) {
            Some(u) => rest.push(u),
            None => rest,
        }
    }
}

/// What a stored entry sends out: a copy at MaxAge when it is not yet at MaxAge and either
/// this router originated it and no longer wants it, or it has aged to MaxAge.
pub open spec fn flush_update(
    e: ((u32, u8, u32, u32), StoredView),
    w: Seq<((u32, u8, u32, u32), LsaView)>,
    self_id: u32,
    now: u64,
) -> Option<(u32, LsaView)> {
    if e.1.lsa.age == LSA_MAX_AGE {
        None
    } else if (e.0.3 == self_id && !has_key(w, e.0)) || current(e.1, now).age == LSA_MAX_AGE {
        Some((e.0.0, LsaView { age: LSA_MAX_AGE, ..current(e.1, now) }))
    } else {
        None
    }
}

/// What the stored entries send out, in key order.
pub open spec fn flush_updates(
    d: Seq<((u32, u8, u32, u32), StoredView)>,
    w: Seq<((u32, u8, u32, u32), LsaView)>,
    self_id: u32,
    now: u64,
) -> Seq<(u32, LsaView)>
    decreases d.len(),
{
    if d.len() == 0 {
        Seq::empty()
    } else {
        let rest = flush_updates(d.drop_last(), w, self_id, now);
        match flush_update(d.last(), w, self_id, now) {
            Some(u) => rest.push(u),
            None => rest,
        }
    }
}

/// The database and the LSAs flooded after installing `updates` in order at `now`: an LSA
/// under a new key is dropped once the database holds `limit` entries.
pub open spec fn install_all(
    d: Seq<((u32, u8, u32, u32), StoredView)>,
    updates: Seq<(u32, LsaView)>,
    limit: nat,
    now: u64,
) -> (Seq<((u32, u8, u32, u32), StoredView)>, Seq<(u32, LsaView)>)
    decreases updates.len(),
{
    if updates.len() == 0 {
        (d, Seq::empty())
    } else {
        let (db, flooded) = install_all(d, updates.drop_last(), limit, now);
        let u = updates.last();
        let key = lsa_key(u.0, u.1);
        if !has_key(db, key) && db.len() >= limit {
            (db, flooded)
        } else {
            (lsa_put(db, key, StoredView { lsa: u.1, installed: now }), flooded.push(u))
        }
    }
}

/// Whether a stored entry stays once every exchange is drained: it is not at MaxAge, or it
/// was installed less than the hold time ago.
pub open spec fn kept_after_drain(now: u64) -> spec_fn(StoredView) -> bool {
    |s: StoredView|
        s.lsa.age != LSA_MAX_AGE || (if now >= s.installed {
            now - s.installed
        } else {
            0
        }) < LSA_FLUSH_HOLD_US
}

/// The database and flooded LSAs after originating the wanted LSAs `w` as router `self_id`
/// at `now`, with a database limit of `limit`; `drained` tells whether every exchange with a
/// neighbor is drained.
pub open spec fn originate_spec(
    d: Seq<((u32, u8, u32, u32), StoredView)>,
    w: Seq<((u32, u8, u32, u32), LsaView)>,
    self_id: u32,
    now: u64,
    limit: nat,
    drained: bool,
) -> (Seq<((u32, u8, u32, u32), StoredView)>, Seq<(u32, LsaView)>) {
    let updates = desired_updates(d, w, now) + flush_updates(d, w, self_id, now);
    let (db, flooded) = install_all(d, updates, limit, now);
    (if drained {
        kept(db, kept_after_drain(now))
    } else {
        db
    }, flooded)
}

/// A copy of the encoded body.
fn copy_body(b: &Vec<u32>) -> (r: Vec<u32>)
    ensures
        r@ == b@,
{
    let mut r: Vec<u32> = Vec::new();
    let mut i: usize = 0;
    while i < b.len()
        invariant
            i <= b@.len(),
            r@ == b@.take(i as int),
        decreases b@.len() - i,
    {
        r.push(b[i]);
        i = i + 1;
        assert(r@ =~= b@.take(i as int));
    }
    assert(b@.take(b@.len() as int) =~= b@);
    r
}

/// Whether two encoded bodies are equal.
fn same_body(a: &Vec<u32>, b: &Vec<u32>) -> (r: bool)
    ensures
        r == (a@ == b@),
{
    if a.len() != b.len() {
        return false;
    }
    let mut i: usize = 0;
    while i < a.len()
        invariant
            a@.len() == b@.len(),
            i <= a@.len(),
            forall|j: int| 0 <= j < i ==> a@[j] == b@[j],
        decreases a@.len() - i,
    {
        if a[i] != b[i] {
            return false;
        }
        i = i + 1;
    }
    assert(a@ =~= b@);
    true
}

impl OspfLsa {
    /// A copy of the LSA.
    pub fn copy(&self) -> (r: OspfLsa)
        ensures
            r@ == self@,
    {
        OspfLsa {
            kind: self.kind,
            link_state_id: self.link_state_id,
            advertising_router: self.advertising_router,
            age: self.age,
            sequence: self.sequence,
            body: copy_body(&self.body),
        }
    }
}

impl StoredLsa {
    /// The LSA as it stands at `now`.
    pub fn current(&self, now: u64) -> (r: OspfLsa)
        ensures
            r@ == current(self@, now),
    {
        let elapsed: u64 = if now >= self.installed {
            (now - self.installed) / 1_000_000
        } else {
            0
        };
        let total: u64 = self.lsa.age as u64 + elapsed;
        let mut r = self.lsa.copy();
        r.age = if total > LSA_MAX_AGE as u64 {
            LSA_MAX_AGE
        } else {
            total as u16
        };
        r
    }
}

impl LsaDatabase {
    /// An empty database.
    pub fn new() -> (r: LsaDatabase)
        ensures
            r@ == Seq::<((u32, u8, u32, u32), StoredView)>::empty(),
            lsa_db_wf(r@),
    {
        let r = LsaDatabase { entries: Vec::new() };
        assert(r@ =~= Seq::<((u32, u8, u32, u32), StoredView)>::empty());
        r
    }

    /// The number of stored LSAs.
    pub fn len(&self) -> (r: usize)
        ensures
            r == self@.len(),
    {
        self.entries.len()
    }

    /// The stored LSAs, in key order.
    pub fn lsas(&self) -> (r: &[((u32, u8, u32, u32), StoredLsa)])
        ensures
            entries_view(r@) == self@,
    {
        self.entries.as_slice()
    }

    /// Whether an LSA is stored under `key`.
    pub fn contains_key(&self, key: (u32, u8, u32, u32)) -> (r: bool)
        requires
            lsa_db_wf(self@),
        ensures
            r == has_key(self@, key),
    {
        self.find(key).is_some()
    }

    /// Where `key` is stored.
    fn find(&self, key: (u32, u8, u32, u32)) -> (r: Option<usize>)
        requires
            lsa_db_wf(self@),
        ensures
            match r {
                Some(i) => i < self@.len() && has_key(self@, key) && key_index(self@, key) == i,
                None => !has_key(self@, key),
            },
    {
        let mut i: usize = 0;
        while i < self.entries.len()
            invariant
                lsa_db_wf(self@),
                i <= self@.len(),
                forall|j: int| 0 <= j < i ==> #[trigger] self@[j].0 != key,
            decreases self@.len() - i,
        {
            let k = self.entries[i].0;
            assert(self@[i as int].0 == k);
            if k.0 == key.0 && k.1 == key.1 && k.2 == key.2 && k.3 == key.3 {
                proof {
                    lemma_key_index(self@, i as int);
                }
                return Some(i);
            }
            i = i + 1;
        }
        None
    }
}


/// Pushing an LSA onto a flood list pushes its value.
proof fn lemma_flood_push(s: Seq<(u32, OspfLsa)>, x: (u32, OspfLsa))
    ensures
        flood_view(s.push(x)) == flood_view(s).push((x.0, x.1@)),
{
    assert(flood_view(s.push(x)) =~= flood_view(s).push((x.0, x.1@)));
}

/// Whether LSA key `a` comes before `b`.
fn key_less(a: (u32, u8, u32, u32), b: (u32, u8, u32, u32)) -> (r: bool)
    ensures
        r == lsa_key_before(a, b),
{
    if a.0 != b.0 {
        a.0 < b.0
    } else if a.1 != b.1 {
        a.1 < b.1
    } else if a.2 != b.2 {
        a.2 < b.2
    } else {
        a.3 < b.3
    }
}

/// Whether `key` is among the wanted LSAs.
fn wanted(desired: &Vec<((u32, u8, u32, u32), OspfLsa)>, key: (u32, u8, u32, u32)) -> (r: bool)
    ensures
        r == has_key(keyed_view(desired@), key),
{
    let ghost w = keyed_view(desired@);
    let mut i: usize = 0;
    while i < desired.len()
        invariant
            w == keyed_view(desired@),
            i <= w.len(),
            forall|j: int| 0 <= j < i ==> #[trigger] w[j].0 != key,
        decreases w.len() - i,
    {
        let k = desired[i].0;
        assert(w[i as int].0 == k);
        if k.0 == key.0 && k.1 == key.1 && k.2 == key.2 && k.3 == key.3 {
            return true;
        }
        i = i + 1;
    }
    false
}

impl LsaDatabase {
    /// Originate the wanted LSAs `desired` as router `self_id` at `now` and return what to
    /// flood, each with its area: wanted LSAs first, in their order, then flushes in
    /// key order. Each is installed unless its key is new and the database already
    /// holds `limit` LSAs. When `drained` (every exchange with a neighbor is done), flushed
    /// LSAs installed at least the hold time ago are purged.
    pub fn originate(
        &mut self,
        desired: &Vec<((u32, u8, u32, u32), OspfLsa)>,
        self_id: u32,
        now: u64,
        limit: usize,
        drained: bool,
    ) -> (r: Vec<(u32, OspfLsa)>)
        requires
            lsa_db_wf(old(self)@),
            desired_wf(keyed_view(desired@)),
        ensures
            lsa_db_wf(final(self)@),
            (final(self)@, flood_view(r@)) == originate_spec(
                old(self)@,
                keyed_view(desired@),
                self_id,
                now,
                limit as nat,
                drained,
            ),
    {
        let ghost d0 = self@;
        let ghost w = keyed_view(desired@);
        let mut updates: Vec<(u32, OspfLsa)> = Vec::new();
        let mut i: usize = 0;
        while i < desired.len()
            invariant
                self@ == d0,
                lsa_db_wf(d0),
                w == keyed_view(desired@),
                i <= w.len(),
                flood_view(updates@) == desired_updates(d0, w.take(i as int), now),
            decreases w.len() - i,
        {
            let key = desired[i].0;
            let ghost prev = updates@;
            proof {
                assert(w.take(i + 1).drop_last() =~= w.take(i as int));
                assert(w.take(i + 1).last() == (key, desired[i as int].1@));
            }
            match self.find(key) {
                None => {
                    let l = desired[i].1.copy();
                    updates.push((key.0, l));
                    proof {
                        lemma_flood_push(prev, (key.0, l));
                    }
                },
                Some(j) => {
                    let old = &self.entries[j].1;
                    assert(value_of(d0, key) == old@);
                    let cur = old.current(now);
                    if same_body(&old.lsa.body, &desired[i].1.body) && cur.age < LSA_REFRESH_AGE {
                    } else if old.lsa.sequence == LSA_MAX_SEQUENCE {
                        if old.lsa.age != LSA_MAX_AGE {
                            let mut c = cur;
                            c.age = LSA_MAX_AGE;
                            updates.push((key.0, c));
                            proof {
                                lemma_flood_push(prev, (key.0, c));
                                assert(c@ == LsaView { age: LSA_MAX_AGE, ..current(old@, now) });
                            }
                        }
                    } else {
                        let mut l = desired[i].1.copy();
                        l.sequence = old.lsa.sequence + 1;
                        updates.push((key.0, l));
                        proof {
                            lemma_flood_push(prev, (key.0, l));
                        }
                    }
                },
            }
            i = i + 1;
        }
        proof {
            assert(w.take(w.len() as int) =~= w);
        }
        let ghost wanted_updates = flood_view(updates@);
        let mut k: usize = 0;
        while k < self.entries.len()
            invariant
                self@ == d0,
                lsa_db_wf(d0),
                w == keyed_view(desired@),
                k <= d0.len(),
                wanted_updates == desired_updates(d0, w, now),
                flood_view(updates@) == wanted_updates + flush_updates(d0.take(k as int), w, self_id, now),
            decreases d0.len() - k,
        {
            let e = &self.entries[k];
            let ghost prev = updates@;
            proof {
                assert(d0.take(k + 1).drop_last() =~= d0.take(k as int));
                assert(d0.take(k + 1).last() == (e.0, e.1@));
            }
            if e.1.lsa.age != LSA_MAX_AGE {
                let cur = e.1.current(now);
                if (e.0.3 == self_id && !wanted(desired, e.0)) || cur.age == LSA_MAX_AGE {
                    let mut c = cur;
                    c.age = LSA_MAX_AGE;
                    updates.push((e.0.0, c));
                    proof {
                        lemma_flood_push(prev, (e.0.0, c));
                        assert(c@ == LsaView { age: LSA_MAX_AGE, ..current(e.1@, now) });
                        assert(flood_view(updates@) =~= wanted_updates + flush_updates(d0.take(k + 1), w, self_id, now));
                    }
                }
            }
            k = k + 1;
        }
        proof {
            assert(d0.take(d0.len() as int) =~= d0);
        }
        let ghost all = flood_view(updates@);
        let mut flooded: Vec<(u32, OspfLsa)> = Vec::new();
        let mut m: usize = 0;
        while m < updates.len()
            invariant
                all == flood_view(updates@),
                m <= all.len(),
                lsa_db_wf(self@),
                (self@, flood_view(flooded@)) == install_all(d0, all.take(m as int), limit as nat, now),
            decreases all.len() - m,
        {
            let area = updates[m].0;
            let l = &updates[m].1;
            let key = (area, l.kind, l.link_state_id, l.advertising_router);
            let ghost before = self@;
            let ghost fl = flooded@;
            proof {
                assert(all.take(m + 1).drop_last() =~= all.take(m as int));
                assert(all.take(m + 1).last() == (area, l@));
                assert(key == lsa_key(area, l@));
            }
            let found = self.find(key);
            let skip = match found {
                None => self.entries.len() >= limit,
                Some(_) => false,
            };
            if !skip {
                let stored = StoredLsa { lsa: l.copy(), installed: now };
                match found {
                    Some(j) => {
                        self.entries.set(j, (key, stored));
                        proof {
                            assert(self@ =~= before.update(j as int, (key, StoredView { lsa: l@, installed: now })));
                        }
                    },
                    None => {
                        let mut p: usize = 0;
                        while p < self.entries.len() && key_less(self.entries[p].0, key)
                            invariant
                                p <= before.len(),
                                self@ == before,
                                forall|j: int| 0 <= j < p ==> lsa_key_before((#[trigger] before[j]).0, key),
                            decreases before.len() - p,
                        {
                            assert(before[p as int].0 == self.entries@[p as int].0);
                            p = p + 1;
                        }
                        proof {
                            assert forall|j: int| p <= j < before.len() implies lsa_key_before(key, (#[trigger] before[j]).0) by {
                                assert(before[p as int].0 == self.entries@[p as int].0);
                                assert(!lsa_key_before(before[p as int].0, key));
                                assert(before[p as int].0 != key);
                                if j > p {
                                    assert(lsa_key_before(before[p as int].0, before[j].0));
                                }
                            }
                            assert(lsa_slot(before, key, p as int));
                            lemma_lsa_slot_unique(before, key, p as int);
                        }
                        self.entries.insert(p, (key, stored));
                        proof {
                            assert(self@ =~= before.insert(p as int, (key, StoredView { lsa: l@, installed: now })));
                        }
                    },
                }
                let copy = l.copy();
                flooded.push((area, copy));
                proof {
                    lemma_flood_push(fl, (area, copy));
                    lemma_lsa_put(before, key, StoredView { lsa: l@, installed: now });
                    assert(self@ == lsa_put(before, key, StoredView { lsa: l@, installed: now }));
                    assert forall|q: int| 0 <= q < self@.len() implies (#[trigger] self@[q]).0 == lsa_key(
                        self@[q].0.0,
                        self@[q].1.lsa,
                    ) by {
                        let sv = StoredView { lsa: l@, installed: now };
                        if self@[q] != (key, sv) {
                            assert(before.contains(self@[q])) by {
                                if has_key(before, key) {
                                    assert(self@[q] == before[q]);
                                } else {
                                    let p = lsa_position(before, key);
                                    if q < p {
                                        assert(self@[q] == before[q]);
                                    } else {
                                        assert(q != p);
                                        assert(self@[q] == before[q - 1]);
                                    }
                                }
                            }
                            let x = choose|x: int| 0 <= x < before.len() && before[x] == self@[q];
                            assert(before[x].0 == lsa_key(before[x].0.0, before[x].1.lsa));
                        }
                    }
                }
            }
            m = m + 1;
        }
        proof {
            assert(all.take(all.len() as int) =~= all);
        }
        if drained {
            let ghost d1 = self@;
            let ghost keep = kept_after_drain(now);
            let mut rest: Vec<((u32, u8, u32, u32), StoredLsa)> = Vec::new();
            std::mem::swap(&mut rest, &mut self.entries);
            assert(entries_view(rest@) == d1);
            let mut out: Vec<((u32, u8, u32, u32), StoredLsa)> = Vec::new();
            let mut n: usize = 0;
            while n < rest.len()
                invariant
                    entries_view(rest@) == d1,
                    n <= d1.len(),
                    keep == kept_after_drain(now),
                    entries_view(out@) == kept(d1.take(n as int), keep),
                decreases d1.len() - n,
            {
                let e = &rest[n];
                proof {
                    assert(d1.take(n + 1).drop_last() =~= d1.take(n as int));
                    assert(d1.take(n + 1).last() == (e.0, e.1@));
                }
                let elapsed: u64 = if now >= e.1.installed {
                    now - e.1.installed
                } else {
                    0
                };
                if e.1.lsa.age != LSA_MAX_AGE || elapsed < LSA_FLUSH_HOLD_US {
                    let ghost prev = out@;
                    out.push((e.0, StoredLsa { lsa: e.1.lsa.copy(), installed: e.1.installed }));
                    proof {
                        assert(entries_view(out@) =~= entries_view(prev).push((e.0, e.1@)));
                    }
                }
                n = n + 1;
            }
            self.entries = out;
            proof {
                assert(d1.take(d1.len() as int) =~= d1);
                lemma_kept(d1, keep);
                lemma_kept_sorted(d1, keep);
                let dk = kept(d1, keep);
                assert forall|q: int| 0 <= q < dk.len() implies (#[trigger] dk[q]).0 == lsa_key(dk[q].0.0, dk[q].1.lsa) by {
                    assert(d1.contains(dk[q]));
                    let x = choose|x: int| 0 <= x < d1.len() && d1[x] == dk[q];
                    assert(d1[x].0 == lsa_key(d1[x].0.0, d1[x].1.lsa));
                }
            }
        }
        flooded
    }
}

/// Installing keeps a database within its limit.
proof fn lemma_install_within_limit(
    d: Seq<((u32, u8, u32, u32), StoredView)>,
    updates: Seq<(u32, LsaView)>,
    limit: nat,
    now: u64,
)
    requires
        d.len() <= limit,
    ensures
        install_all(d, updates, limit, now).0.len() <= limit,
    decreases updates.len(),
{
    if updates.len() > 0 {
        lemma_install_within_limit(d, updates.drop_last(), limit, now);
    }
}

/// The database limit: originating never takes a database that is within its limit beyond
/// it.
pub proof fn lemma_database_within_limit(
    d: Seq<((u32, u8, u32, u32), StoredView)>,
    w: Seq<((u32, u8, u32, u32), LsaView)>,
    self_id: u32,
    now: u64,
    limit: nat,
    drained: bool,
)
    requires
        d.len() <= limit,
    ensures
        originate_spec(d, w, self_id, now, limit, drained).0.len() <= limit,
{
    let updates = desired_updates(d, w, now) + flush_updates(d, w, self_id, now);
    lemma_install_within_limit(d, updates, limit, now);
    lemma_kept(install_all(d, updates, limit, now).0, kept_after_drain(now));
}

/// Installing keeps a database within the larger of its size and its limit.
proof fn lemma_install_within_bound(
    d: Seq<((u32, u8, u32, u32), StoredView)>,
    updates: Seq<(u32, LsaView)>,
    limit: nat,
    now: u64,
)
    ensures
        install_all(d, updates, limit, now).0.len() <= if d.len() > limit {
            d.len()
        } else {
            limit
        },
    decreases updates.len(),
{
    if updates.len() > 0 {
        lemma_install_within_bound(d, updates.drop_last(), limit, now);
    }
}

/// The database limit: originating never takes a database beyond the larger of its size
/// and its limit.
pub proof fn lemma_database_bounded(
    d: Seq<((u32, u8, u32, u32), StoredView)>,
    w: Seq<((u32, u8, u32, u32), LsaView)>,
    self_id: u32,
    now: u64,
    limit: nat,
    drained: bool,
)
    ensures
        originate_spec(d, w, self_id, now, limit, drained).0.len() <= if d.len() > limit {
            d.len()
        } else {
            limit
        },
{
    let updates = desired_updates(d, w, now) + flush_updates(d, w, self_id, now);
    lemma_install_within_bound(d, updates, limit, now);
    lemma_kept(install_all(d, updates, limit, now).0, kept_after_drain(now));
}

/// Whether an update keeps the sequence number of the LSA `d` stores under its key, or
/// raises it.
pub open spec fn sequence_kept(d: Seq<((u32, u8, u32, u32), StoredView)>, u: (u32, LsaView)) -> bool {
    has_key(d, lsa_key(u.0, u.1)) ==> u.1.sequence >= value_of(d, lsa_key(u.0, u.1)).lsa.sequence
}

proof fn lemma_desired_sequences(
    d: Seq<((u32, u8, u32, u32), StoredView)>,
    w: Seq<((u32, u8, u32, u32), LsaView)>,
    now: u64,
)
    requires
        lsa_db_wf(d),
        desired_wf(w),
    ensures
        forall|i: int| 0 <= i < desired_updates(d, w, now).len() ==> sequence_kept(d, #[trigger] desired_updates(d, w, now)[i]),
    decreases w.len(),
{
    if w.len() > 0 {
        let init = w.drop_last();
        assert(desired_wf(init)) by {
            assert forall|i: int| 0 <= i < init.len() implies (#[trigger] init[i]).0 == lsa_key(init[i].0.0, init[i].1) by {
                assert(init[i] == w[i]);
            }
            assert forall|a: int, b: int| 0 <= a < b < init.len() implies #[trigger] init[a].0 != #[trigger] init[b].0 by {
                assert(init[a] == w[a] && init[b] == w[b]);
            }
        }
        lemma_desired_sequences(d, init, now);
        let key = w.last().0;
        let lsa = w.last().1;
        assert(key == lsa_key(key.0, lsa)) by {
            assert(w[w.len() - 1] == w.last());
        }
        let rest = desired_updates(d, init, now);
        let out = desired_updates(d, w, now);
        if let Some(u) = desired_update(d, key, lsa, now) {
            if has_key(d, key) {
                let k = key_index(d, key);
                assert(d[k].0 == lsa_key(d[k].0.0, d[k].1.lsa));
            }
            assert(sequence_kept(d, u));
            assert forall|i: int| 0 <= i < out.len() implies sequence_kept(d, #[trigger] out[i]) by {
                if i < rest.len() {
                    assert(out[i] == rest[i]);
                }
            }
        }
    }
}

proof fn lemma_flush_sequences(
    d0: Seq<((u32, u8, u32, u32), StoredView)>,
    d: Seq<((u32, u8, u32, u32), StoredView)>,
    w: Seq<((u32, u8, u32, u32), LsaView)>,
    self_id: u32,
    now: u64,
)
    requires
        lsa_db_wf(d0),
        d.len() <= d0.len(),
        forall|i: int| 0 <= i < d.len() ==> d[i] == d0[i],
    ensures
        forall|i: int| 0 <= i < flush_updates(d, w, self_id, now).len() ==> sequence_kept(
            d0,
            #[trigger] flush_updates(d, w, self_id, now)[i],
        ),
    decreases d.len(),
{
    if d.len() > 0 {
        let init = d.drop_last();
        lemma_flush_sequences(d0, init, w, self_id, now);
        let rest = flush_updates(init, w, self_id, now);
        let out = flush_updates(d, w, self_id, now);
        let e = d.last();
        if let Some(u) = flush_update(e, w, self_id, now) {
            let j = d.len() - 1;
            assert(d0[j] == e);
            assert(e.0 == lsa_key(e.0.0, e.1.lsa));
            lemma_key_index(d0, j);
            assert(sequence_kept(d0, u));
            assert forall|i: int| 0 <= i < out.len() implies sequence_kept(d0, #[trigger] out[i]) by {
                if i < rest.len() {
                    assert(out[i] == rest[i]);
                }
            }
        }
    }
}

/// Installing updates that keep or raise sequence numbers keeps or raises the sequence
/// number of every LSA stored before and after.
proof fn lemma_install_sequences(
    d: Seq<((u32, u8, u32, u32), StoredView)>,
    updates: Seq<(u32, LsaView)>,
    limit: nat,
    now: u64,
)
    requires
        lsa_sorted(d),
        forall|i: int| 0 <= i < updates.len() ==> sequence_kept(d, #[trigger] updates[i]),
    ensures
        lsa_sorted(install_all(d, updates, limit, now).0),
        keys_unique(install_all(d, updates, limit, now).0),
        forall|k: (u32, u8, u32, u32)|
            has_key(d, k) && has_key(install_all(d, updates, limit, now).0, k) ==> #[trigger] value_of(
                install_all(d, updates, limit, now).0,
                k,
            ).lsa.sequence >= value_of(d, k).lsa.sequence,
    decreases updates.len(),
{
    if updates.len() > 0 {
        let init = updates.drop_last();
        assert forall|i: int| 0 <= i < init.len() implies sequence_kept(d, #[trigger] init[i]) by {
            assert(init[i] == updates[i]);
        }
        lemma_install_sequences(d, init, limit, now);
        let (db, fl) = install_all(d, init, limit, now);
        let u = updates.last();
        assert(sequence_kept(d, u)) by {
            assert(updates[updates.len() - 1] == u);
        }
        let key = lsa_key(u.0, u.1);
        if !(!has_key(db, key) && db.len() >= limit) {
            let sv = StoredView { lsa: u.1, installed: now };
            let n = lsa_put(db, key, sv);
            lemma_lsa_put(db, key, sv);
            lemma_value_of(n, key, sv);
            assert forall|k: (u32, u8, u32, u32)| has_key(d, k) && has_key(n, k) implies #[trigger] value_of(n, k).lsa.sequence
                >= value_of(d, k).lsa.sequence by {
                if k != key {
                    assert(has_key(n, k) == has_key(db, k));
                }
            }
        }
    }
}

/// Sequence numbers never go down: every LSA stored both before and after originating has
/// a sequence number at least as high as before.
pub proof fn lemma_sequences_never_decrease(
    d: Seq<((u32, u8, u32, u32), StoredView)>,
    w: Seq<((u32, u8, u32, u32), LsaView)>,
    self_id: u32,
    now: u64,
    limit: nat,
    drained: bool,
)
    requires
        lsa_db_wf(d),
        desired_wf(w),
    ensures
        forall|k: (u32, u8, u32, u32)|
            has_key(d, k) && has_key(originate_spec(d, w, self_id, now, limit, drained).0, k) ==> #[trigger] value_of(
                originate_spec(d, w, self_id, now, limit, drained).0,
                k,
            ).lsa.sequence >= value_of(d, k).lsa.sequence,
{
    let du = desired_updates(d, w, now);
    let fu = flush_updates(d, w, self_id, now);
    let updates = du + fu;
    lemma_desired_sequences(d, w, now);
    lemma_flush_sequences(d, d, w, self_id, now);
    assert forall|i: int| 0 <= i < updates.len() implies sequence_kept(d, #[trigger] updates[i]) by {
        if i < du.len() {
            assert(updates[i] == du[i]);
        } else {
            assert(updates[i] == fu[i - du.len()]);
        }
    }
    lemma_install_sequences(d, updates, limit, now);
    let db = install_all(d, updates, limit, now).0;
    if drained {
        let kd = kept(db, kept_after_drain(now));
        lemma_kept(db, kept_after_drain(now));
        assert forall|k: (u32, u8, u32, u32)| has_key(d, k) && has_key(kd, k) implies #[trigger] value_of(kd, k).lsa.sequence
            >= value_of(d, k).lsa.sequence by {
            let i = key_index(kd, k);
            assert(db.contains(kd[i]));
            lemma_key_index(kd, i);
            lemma_value_of(db, k, kd[i].1);
        }
    }
}

/// One origination round of a router: without a router identifier nothing happens; with
/// identifier `id`, the database originates the wanted LSAs `desired` (see
/// `LsaDatabase::originate`) and what it floods is appended to `out`. The same round serves
/// OSPFv3, whose keys carry each LSA's flooding scope in place of the area. Every LSA stored
/// before and after keeps or raises its sequence number, the database stays within the larger
/// of its size and `limit`, and what `out` held stays at its front.
pub fn ospf_originate_step(
    router_id: Option<u32>,
    database: &mut LsaDatabase,
    desired: &Vec<((u32, u8, u32, u32), OspfLsa)>,
    now: u64,
    limit: usize,
    drained: bool,
    out: &mut Vec<(u32, OspfLsa)>,
)
    requires
        lsa_db_wf(old(database)@),
        desired_wf(keyed_view(desired@)),
    ensures
        lsa_db_wf(final(database)@),
        match router_id {
            None => final(database)@ == old(database)@ && final(out)@ == old(out)@,
            Some(id) => {
                &&& final(database)@ == originate_spec(old(database)@, keyed_view(desired@), id, now, limit as nat, drained).0
                &&& flood_view(final(out)@) == flood_view(old(out)@) + originate_spec(
                    old(database)@,
                    keyed_view(desired@),
                    id,
                    now,
                    limit as nat,
                    drained,
                ).1
            },
        },
        forall|k: (u32, u8, u32, u32)|
            has_key(old(database)@, k) && has_key(final(database)@, k) ==> #[trigger] value_of(final(database)@, k).lsa.sequence
                >= value_of(old(database)@, k).lsa.sequence,
        final(database)@.len() <= if old(database)@.len() > limit { old(database)@.len() } else { limit as nat },
        final(out)@.len() >= old(out)@.len(),
        forall|i: int| 0 <= i < old(out)@.len() ==> #[trigger] final(out)@[i] == old(out)@[i],
{
    let id = match router_id {
        None => {
            return;
        },
        Some(id) => id,
    };
    let ghost d0 = database@;
    let ghost o0 = out@;
    let mut flooded = database.originate(desired, id, now, limit, drained);
    let ghost fl = flooded@;
    out.append(&mut flooded);
    proof {
        assert(out@ == o0 + fl);
        assert(flood_view(out@) =~= flood_view(o0) + flood_view(fl));
        lemma_sequences_never_decrease(d0, keyed_view(desired@), id, now, limit as nat, drained);
        lemma_database_bounded(d0, keyed_view(desired@), id, now, limit as nat, drained);
    }
}

} // verus!
