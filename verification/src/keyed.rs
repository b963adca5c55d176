//! Finite maps kept as sequences of key-value pairs with distinct keys: in insertion order,
//! or in increasing order of a sequence number.
use vstd::prelude::*;

verus! {

/// Whether no key occurs twice.
pub open spec fn keys_unique<K, V>(s: Seq<(K, V)>) -> bool {
    forall|i: int, j: int| 0 <= i < j < s.len() ==> #[trigger] s[i].0 != #[trigger] s[j].0
}

/// Whether `k` occurs as a key.
pub open spec fn has_key<K, V>(s: Seq<(K, V)>, k: K) -> bool {
    exists|i: int| 0 <= i < s.len() && #[trigger] s[i].0 == k
}

/// Where key `k` occurs.
pub open spec fn key_index<K, V>(s: Seq<(K, V)>, k: K) -> int {
    choose|i: int| 0 <= i < s.len() && #[trigger] s[i].0 == k
}

/// The value stored under key `k`.
pub open spec fn value_of<K, V>(s: Seq<(K, V)>, k: K) -> V {
    s[key_index(s, k)].1
}

/// The entries after storing `v` under `k`, replacing any value it had.
pub open spec fn put<K, V>(s: Seq<(K, V)>, k: K, v: V) -> Seq<(K, V)> {
    if has_key(s, k) {
        s.update(key_index(s, k), (k, v))
    } else {
        s.push((k, v))
    }
}

/// The entries after removing key `k`, if present.
pub open spec fn without<K, V>(s: Seq<(K, V)>, k: K) -> Seq<(K, V)> {
    if has_key(s, k) {
        s.remove(key_index(s, k))
    } else {
        s
    }
}

/// The entries whose value satisfies `keep`, in order.
pub open spec fn kept<K, V>(s: Seq<(K, V)>, keep: spec_fn(V) -> bool) -> Seq<(K, V)>
    decreases s.len(),
{
    if s.len() == 0 {
        s
    } else {
        let rest = kept(s.drop_last(), keep);
        if keep(s.last().1) {
            rest.push(s.last())
        } else {
            rest
        }
    }
}


/// Every entry that `kept` keeps satisfies the predicate.
pub proof fn lemma_kept_satisfy<K, V>(s: Seq<(K, V)>, keep: spec_fn(V) -> bool)
    ensures
        forall|i: int| 0 <= i < kept(s, keep).len() ==> keep(#[trigger] kept(s, keep)[i].1),
    decreases s.len(),
{
    if s.len() > 0 {
        let rest = kept(s.drop_last(), keep);
        lemma_kept_satisfy(s.drop_last(), keep);
        assert forall|i: int| 0 <= i < kept(s, keep).len() implies keep(#[trigger] kept(s, keep)[i].1) by {
            if i < rest.len() {
                assert(kept(s, keep)[i] == rest[i]);
            }
        }
    }
}

/// Facts about the entries `kept` keeps: they come from the original entries, keys stay
/// unique, and there are no more of them.
pub proof fn lemma_kept<K, V>(s: Seq<(K, V)>, keep: spec_fn(V) -> bool)
    ensures
        forall|i: int| 0 <= i < kept(s, keep).len() ==> s.contains(#[trigger] kept(s, keep)[i]),
        forall|i: int| 0 <= i < s.len() && keep(#[trigger] s[i].1) ==> kept(s, keep).contains(s[i]),
        keys_unique(s) ==> keys_unique(kept(s, keep)),
        kept(s, keep).len() <= s.len(),
    decreases s.len(),
{
    if s.len() > 0 {
        let init = s.drop_last();
        lemma_kept(init, keep);
        let rest = kept(init, keep);
        let out = kept(s, keep);
        assert forall|i: int| 0 <= i < s.len() && keep(#[trigger] s[i].1) implies out.contains(s[i]) by {
            if i < s.len() - 1 {
                assert(init[i] == s[i]);
                assert(rest.contains(init[i]));
                let m = choose|m: int| 0 <= m < rest.len() && rest[m] == init[i];
                assert(out[m] == rest[m]);
            } else {
                assert(out[out.len() - 1] == s[i]);
            }
        }
        assert forall|i: int| 0 <= i < out.len() implies s.contains(#[trigger] out[i]) by {
            if i < rest.len() {
                assert(out[i] == rest[i]);
                assert(init.contains(rest[i]));
                let m = choose|m: int| 0 <= m < init.len() && init[m] == rest[i];
                assert(s[m] == init[m]);
            } else {
                assert(out[i] == s[s.len() - 1]);
            }
        }
        if keys_unique(s) {
            assert forall|a: int, b: int| 0 <= a < b < init.len() implies #[trigger] init[a].0 != #[trigger] init[b].0 by {
                assert(init[a] == s[a] && init[b] == s[b]);
            }
            assert forall|a: int, b: int| 0 <= a < b < out.len() implies #[trigger] out[a].0 != #[trigger] out[b].0 by {
                if b < rest.len() {
                    assert(out[a] == rest[a] && out[b] == rest[b]);
                } else {
                    assert(out[a] == rest[a]);
                    assert(init.contains(rest[a]));
                    let m = choose|m: int| 0 <= m < init.len() && init[m] == rest[a];
                    assert(s[m] == init[m]);
                    assert(out[b] == s[s.len() - 1]);
                }
            }
        }
    }
}

/// With unique keys, the entry found at `i` is the one for its key.
pub proof fn lemma_key_index<K, V>(s: Seq<(K, V)>, i: int)
    requires
        keys_unique(s),
        0 <= i < s.len(),
    ensures
        has_key(s, s[i].0),
        key_index(s, s[i].0) == i,
{
    assert(has_key(s, s[i].0));
    let k = key_index(s, s[i].0);
    if k < i {
        assert(s[k].0 != s[i].0);
    } else if i < k {
        assert(s[i].0 != s[k].0);
    }
}

/// Storing under a key keeps keys unique.
pub proof fn lemma_put_unique<K, V>(s: Seq<(K, V)>, k: K, v: V)
    requires
        keys_unique(s),
    ensures
        keys_unique(put(s, k, v)),
{
    let n = put(s, k, v);
    if has_key(s, k) {
        let i = key_index(s, k);
        assert forall|a: int, b: int| 0 <= a < b < n.len() implies #[trigger] n[a].0 != #[trigger] n[b].0 by {
            assert(n[a].0 == s[a].0 && n[b].0 == s[b].0);
        }
    } else {
        assert forall|a: int, b: int| 0 <= a < b < n.len() implies #[trigger] n[a].0 != #[trigger] n[b].0 by {
            if b < s.len() {
                assert(n[a] == s[a] && n[b] == s[b]);
            } else {
                assert(n[a] == s[a]);
            }
        }
    }
}

/// Removing a key keeps keys unique.
pub proof fn lemma_without_unique<K, V>(s: Seq<(K, V)>, k: K)
    requires
        keys_unique(s),
    ensures
        keys_unique(without(s, k)),
        !has_key(without(s, k), k),
{
    let n = without(s, k);
    if has_key(s, k) {
        let i = key_index(s, k);
        assert forall|a: int, b: int| 0 <= a < b < n.len() implies #[trigger] n[a].0 != #[trigger] n[b].0 by {
            let a2 = if a < i { a } else { a + 1 };
            let b2 = if b < i { b } else { b + 1 };
            assert(n[a] == s[a2] && n[b] == s[b2]);
        }
        if has_key(n, k) {
            let j = choose|j: int| 0 <= j < n.len() && #[trigger] n[j].0 == k;
            let j2 = if j < i { j } else { j + 1 };
            assert(n[j] == s[j2]);
        }
    }
}


/// With unique keys, a present entry is the one `value_of` gives.
pub proof fn lemma_value_of<K, V>(s: Seq<(K, V)>, k: K, v: V)
    requires
        keys_unique(s),
        s.contains((k, v)),
    ensures
        has_key(s, k),
        value_of(s, k) == v,
{
    let i = choose|i: int| 0 <= i < s.len() && s[i] == (k, v);
    lemma_key_index(s, i);
}

/// After storing `v` under `k`, the key holds `v`.
pub proof fn lemma_put_holds<K, V>(s: Seq<(K, V)>, k: K, v: V)
    requires
        keys_unique(s),
    ensures
        put(s, k, v).contains((k, v)),
{
    let n = put(s, k, v);
    if has_key(s, k) {
        let i = key_index(s, k);
        assert(n[i] == (k, v));
    } else {
        assert(n[n.len() - 1] == (k, v));
    }
}

/// Whether sequence numbers strictly increase along the entries.
pub open spec fn sorted_keys<V>(s: Seq<(u32, V)>) -> bool {
    forall|i: int, j: int| 0 <= i < j < s.len() ==> #[trigger] s[i].0 < #[trigger] s[j].0
}


/// Whether a new sequence `k` belongs at position `p` of sorted entries.
pub open spec fn insert_at<V>(s: Seq<(u32, V)>, k: u32, p: int) -> bool {
    &&& 0 <= p <= s.len()
    &&& forall|j: int| 0 <= j < p ==> (#[trigger] s[j]).0 < k
    &&& forall|j: int| p <= j < s.len() ==> (#[trigger] s[j]).0 > k
}

/// Sorted entries after storing `e` under sequence `k`, replacing any entry it had.
pub open spec fn sorted_put<V>(s: Seq<(u32, V)>, k: u32, e: V) -> Seq<(u32, V)> {
    if has_key(s, k) {
        s.update(key_index(s, k), (k, e))
    } else {
        s.insert(choose|p: int| insert_at(s, k, p), (k, e))
    }
}


/// Entries in strictly increasing sequence order have unique sequences.
pub proof fn lemma_sorted_unique<V>(s: Seq<(u32, V)>)
    requires
        sorted_keys(s),
    ensures
        keys_unique(s),
{
    assert forall|i: int, j: int| 0 <= i < j < s.len() implies #[trigger] s[i].0 != #[trigger] s[j].0 by {
        assert(s[i].0 < s[j].0);
    }
}

/// There is one position for a new sequence.
pub proof fn lemma_insert_at_unique<V>(s: Seq<(u32, V)>, k: u32, p: int)
    requires
        insert_at(s, k, p),
    ensures
        (choose|q: int| insert_at(s, k, q)) == p,
{
    let q = choose|q: int| insert_at(s, k, q);
    if q < p {
        assert(s[q].0 < k);
        assert(s[q].0 > k);
    } else if p < q {
        assert(s[p].0 < k);
        assert(s[p].0 > k);
    }
}

/// Inserting a new sequence at its position keeps the order.
pub proof fn lemma_insert_sorted<V>(s: Seq<(u32, V)>, k: u32, e: V, p: int)
    requires
        sorted_keys(s),
        insert_at(s, k, p),
    ensures
        sorted_keys(s.insert(p, (k, e))),
        !has_key(s, k),
{
    let n = s.insert(p, (k, e));
    assert forall|a: int, b: int| 0 <= a < b < n.len() implies #[trigger] n[a].0 < #[trigger] n[b].0 by {
        if b < p {
            assert(n[a] == s[a] && n[b] == s[b]);
        } else if b == p {
            assert(n[a] == s[a]);
        } else if a < p {
            assert(n[a] == s[a] && n[b] == s[b - 1]);
        } else if a == p {
            assert(n[b] == s[b - 1]);
        } else {
            assert(n[a] == s[a - 1] && n[b] == s[b - 1]);
        }
    }
    if has_key(s, k) {
        let j = choose|j: int| 0 <= j < s.len() && #[trigger] s[j].0 == k;
        if j < p {
            assert(s[j].0 < k);
        } else {
            assert(s[j].0 > k);
        }
    }
}

/// Removing an entry keeps the order.
pub proof fn lemma_remove_sorted<V>(s: Seq<(u32, V)>, i: int)
    requires
        sorted_keys(s),
        0 <= i < s.len(),
    ensures
        sorted_keys(s.remove(i)),
{
    let n = s.remove(i);
    assert forall|a: int, b: int| 0 <= a < b < n.len() implies #[trigger] n[a].0 < #[trigger] n[b].0 by {
        let a2 = if a < i { a } else { a + 1 };
        let b2 = if b < i { b } else { b + 1 };
        assert(n[a] == s[a2] && n[b] == s[b2]);
    }
}

/// Where sequence `k` is stored.
pub fn find_sequence<V>(entries: &Vec<(u32, V)>, k: u32) -> (r: Option<usize>)
    requires
        sorted_keys(entries@),
    ensures
        match r {
            Some(i) => i < entries@.len() && has_key(entries@, k) && key_index(entries@, k) == i
                && entries@[i as int].0 == k,
            None => !has_key(entries@, k),
        },
{
    proof {
        lemma_sorted_unique(entries@);
    }
    let mut i: usize = 0;
    while i < entries.len()
        invariant
            keys_unique(entries@),
            i <= entries@.len(),
            forall|j: int| 0 <= j < i ==> #[trigger] entries@[j].0 != k,
        decreases entries@.len() - i,
    {
        if entries[i].0 == k {
            proof {
                lemma_key_index(entries@, i as int);
            }
            return Some(i);
        }
        i = i + 1;
    }
    None
}

/// Store `entry` under sequence `seq` in sorted entries, replacing any entry it had.
pub fn put_entry<V>(entries: &mut Vec<(u32, V)>, seq: u32, entry: V)
    requires
        sorted_keys(old(entries)@),
    ensures
        final(entries)@ == sorted_put(old(entries)@, seq, entry),
        sorted_keys(final(entries)@),
        final(entries)@.len() == old(entries)@.len() + if has_key(old(entries)@, seq) {
            0int
        } else {
            1int
        },
{
    proof {
        lemma_sorted_unique(entries@);
    }
    let mut i: usize = 0;
    while i < entries.len() && entries[i].0 < seq
        invariant
            i <= entries@.len(),
            entries@ == old(entries)@,
            sorted_keys(entries@),
            keys_unique(entries@),
            forall|j: int| 0 <= j < i ==> (#[trigger] entries@[j]).0 < seq,
        decreases entries@.len() - i,
    {
        i = i + 1;
    }
    if i < entries.len() && entries[i].0 == seq {
        proof {
            lemma_key_index(entries@, i as int);
        }
        entries.set(i, (seq, entry));
        proof {
            let n = entries@;
            let o = old(entries)@;
            assert forall|a: int, b: int| 0 <= a < b < n.len() implies #[trigger] n[a].0 < #[trigger] n[b].0 by {
                assert(n[a].0 == o[a].0 && n[b].0 == o[b].0);
            }
        }
    } else {
        proof {
            let o = entries@;
            assert forall|j: int| i <= j < o.len() implies (#[trigger] o[j]).0 > seq by {
                if j > i {
                    assert(o[i as int].0 < o[j].0);
                }
            }
            assert(insert_at(o, seq, i as int));
            lemma_insert_at_unique(o, seq, i as int);
            lemma_insert_sorted(o, seq, entry, i as int);
        }
        entries.insert(i, (seq, entry));
    }
}


/// A sequence not yet stored has a position among sorted entries.
pub proof fn lemma_insert_position_exists<V>(s: Seq<(u32, V)>, k: u32)
    requires
        sorted_keys(s),
        !has_key(s, k),
    ensures
        exists|p: int| insert_at(s, k, p),
    decreases s.len(),
{
    if s.len() == 0 {
        assert(insert_at(s, k, 0));
    } else {
        let init = s.drop_last();
        assert(sorted_keys(init)) by {
            assert forall|i: int, j: int| 0 <= i < j < init.len() implies #[trigger] init[i].0 < #[trigger] init[j].0 by {
                assert(init[i] == s[i] && init[j] == s[j]);
            }
        }
        assert(!has_key(init, k)) by {
            if has_key(init, k) {
                let j = choose|j: int| 0 <= j < init.len() && #[trigger] init[j].0 == k;
                assert(s[j].0 == k);
            }
        }
        lemma_insert_position_exists(init, k);
        let p0 = choose|p: int| insert_at(init, k, p);
        let last = s.len() - 1;
        assert(s[last].0 != k);
        if s[last].0 < k {
            assert forall|j: int| 0 <= j < s.len() implies (#[trigger] s[j]).0 < k by {
                if j < last {
                    assert(s[j].0 < s[last].0);
                }
            }
            assert(insert_at(s, k, s.len() as int));
        } else {
            assert forall|j: int| 0 <= j < p0 implies (#[trigger] s[j]).0 < k by {
                assert(init[j] == s[j]);
            }
            assert forall|j: int| p0 <= j < s.len() implies (#[trigger] s[j]).0 > k by {
                if j < last {
                    assert(init[j] == s[j]);
                }
            }
            assert(insert_at(s, k, p0));
        }
    }
}

/// Facts about storing `e` under `k` in sorted entries: the sequences stay in order, `k`
/// holds `e`, and every other sequence keeps its entry.
pub proof fn lemma_sorted_put_read<V>(s: Seq<(u32, V)>, k: u32, e: V)
    requires
        sorted_keys(s),
    ensures
        sorted_keys(sorted_put(s, k, e)),
        has_key(sorted_put(s, k, e), k),
        value_of(sorted_put(s, k, e), k) == e,
        forall|k2: u32| k2 != k ==> (has_key(sorted_put(s, k, e), k2) == has_key(s, k2)),
        forall|k2: u32| k2 != k && has_key(s, k2) ==> value_of(sorted_put(s, k, e), k2) == value_of(s, k2),
{
    lemma_sorted_unique(s);
    let n = sorted_put(s, k, e);
    if has_key(s, k) {
        let i = key_index(s, k);
        lemma_key_index(s, i);
        assert forall|a: int, b: int| 0 <= a < b < n.len() implies #[trigger] n[a].0 < #[trigger] n[b].0 by {
            assert(n[a].0 == s[a].0 && n[b].0 == s[b].0);
        }
        lemma_sorted_unique(n);
        assert(n[i].0 == k);
        lemma_key_index(n, i);
        assert forall|k2: u32| k2 != k implies (has_key(n, k2) == has_key(s, k2)) by {
            if has_key(n, k2) {
                let j = choose|j: int| 0 <= j < n.len() && #[trigger] n[j].0 == k2;
                assert(s[j].0 == k2);
            }
            if has_key(s, k2) {
                let j = choose|j: int| 0 <= j < s.len() && #[trigger] s[j].0 == k2;
                assert(n[j].0 == k2);
            }
        }
        assert forall|k2: u32| k2 != k && has_key(s, k2) implies value_of(n, k2) == value_of(s, k2) by {
            let j = key_index(s, k2);
            lemma_key_index(s, j);
            assert(n[j] == s[j]);
            lemma_key_index(n, j);
        }
    } else {
        lemma_insert_position_exists(s, k);
        let p = choose|p: int| insert_at(s, k, p);
        lemma_insert_sorted(s, k, e, p);
        lemma_sorted_unique(n);
        assert(n[p] == (k, e));
        lemma_key_index(n, p);
        assert forall|k2: u32| k2 != k implies (has_key(n, k2) == has_key(s, k2)) by {
            if has_key(n, k2) {
                let j = choose|j: int| 0 <= j < n.len() && #[trigger] n[j].0 == k2;
                if j < p {
                    assert(s[j].0 == k2);
                } else {
                    assert(j != p);
                    assert(s[j - 1].0 == k2);
                }
            }
            if has_key(s, k2) {
                let j = choose|j: int| 0 <= j < s.len() && #[trigger] s[j].0 == k2;
                if j < p {
                    assert(n[j].0 == k2);
                } else {
                    assert(n[j + 1].0 == k2);
                }
            }
        }
        assert forall|k2: u32| k2 != k && has_key(s, k2) implies value_of(n, k2) == value_of(s, k2) by {
            let j = key_index(s, k2);
            lemma_key_index(s, j);
            let j2 = if j < p { j } else { j + 1 };
            assert(n[j2] == s[j]);
            lemma_key_index(n, j2);
        }
    }
}

/// Facts about removing sequence `k` from sorted entries: it is gone and every other
/// sequence keeps its entry.
pub proof fn lemma_without_read<V>(s: Seq<(u32, V)>, k: u32)
    requires
        sorted_keys(s),
    ensures
        !has_key(without(s, k), k),
        forall|k2: u32| k2 != k ==> (has_key(without(s, k), k2) == has_key(s, k2)),
        forall|k2: u32| k2 != k && has_key(s, k2) ==> value_of(without(s, k), k2) == value_of(s, k2),
{
    lemma_sorted_unique(s);
    lemma_without_unique(s, k);
    let n = without(s, k);
    if has_key(s, k) {
        let i = key_index(s, k);
        lemma_key_index(s, i);
        assert forall|k2: u32| k2 != k implies (has_key(n, k2) == has_key(s, k2)) by {
            if has_key(n, k2) {
                let j = choose|j: int| 0 <= j < n.len() && #[trigger] n[j].0 == k2;
                let j2 = if j < i { j } else { j + 1 };
                assert(s[j2].0 == k2);
            }
            if has_key(s, k2) {
                let j = choose|j: int| 0 <= j < s.len() && #[trigger] s[j].0 == k2;
                assert(j != i);
                let j2 = if j < i { j } else { j - 1 };
                assert(n[j2].0 == k2);
            }
        }
        assert forall|k2: u32| k2 != k && has_key(s, k2) implies value_of(n, k2) == value_of(s, k2) by {
            let j = key_index(s, k2);
            lemma_key_index(s, j);
            assert(j != i);
            let j2 = if j < i { j } else { j - 1 };
            assert(n[j2] == s[j]);
            lemma_key_index(n, j2);
        }
    }
}



/// Storing under one key leaves every other key as it was.
pub proof fn lemma_put_other<K, V>(s: Seq<(K, V)>, k: K, v: V, o: K)
    requires
        keys_unique(s),
        o != k,
    ensures
        has_key(put(s, k, v), o) == has_key(s, o),
        has_key(s, o) ==> value_of(put(s, k, v), o) == value_of(s, o),
{
    let n = put(s, k, v);
    lemma_put_unique(s, k, v);
    if has_key(s, k) {
        let i = key_index(s, k);
        if has_key(n, o) {
            let j = choose|j: int| 0 <= j < n.len() && #[trigger] n[j].0 == o;
            assert(s[j].0 == o);
        }
        if has_key(s, o) {
            let j = key_index(s, o);
            lemma_key_index(s, j);
            assert(n[j] == s[j]);
            lemma_key_index(n, j);
        }
    } else {
        if has_key(n, o) {
            let j = choose|j: int| 0 <= j < n.len() && #[trigger] n[j].0 == o;
            assert(j < s.len());
            assert(s[j].0 == o);
        }
        if has_key(s, o) {
            let j = key_index(s, o);
            lemma_key_index(s, j);
            assert(n[j] == s[j]);
            lemma_key_index(n, j);
        }
    }
}

/// Entries with each value replaced by its image under `f`, sequences kept.
pub open spec fn map_entries<V, W>(s: Seq<(u32, V)>, f: spec_fn(V) -> W) -> Seq<(u32, W)> {
    s.map_values(|e: (u32, V)| (e.0, f(e.1)))
}

/// Replacing values keeps the sequences and their order, and commutes with removing.
pub proof fn lemma_map_entries_keys<V, W>(s: Seq<(u32, V)>, f: spec_fn(V) -> W, k: u32)
    requires
        sorted_keys(s),
    ensures
        sorted_keys(map_entries(s, f)),
        has_key(map_entries(s, f), k) == has_key(s, k),
        has_key(s, k) ==> key_index(map_entries(s, f), k) == key_index(s, k),
        map_entries(without(s, k), f) == without(map_entries(s, f), k),
{
    let m = map_entries(s, f);
    assert forall|i: int, j: int| 0 <= i < j < m.len() implies #[trigger] m[i].0 < #[trigger] m[j].0 by {
        assert(s[i].0 < s[j].0);
    }
    lemma_sorted_unique(s);
    lemma_sorted_unique(m);
    if has_key(s, k) {
        let i = key_index(s, k);
        lemma_key_index(s, i);
        assert(m[i].0 == k);
        lemma_key_index(m, i);
        assert(map_entries(without(s, k), f) =~= without(m, k));
    } else {
        assert(!has_key(m, k)) by {
            if has_key(m, k) {
                let j = choose|j: int| 0 <= j < m.len() && #[trigger] m[j].0 == k;
                assert(s[j].0 == k);
            }
        }
    }
}

/// Replacing values commutes with storing.
pub proof fn lemma_map_entries<V, W>(s: Seq<(u32, V)>, f: spec_fn(V) -> W, k: u32, e: V)
    requires
        sorted_keys(s),
    ensures
        map_entries(sorted_put(s, k, e), f) == sorted_put(map_entries(s, f), k, f(e)),
{
    lemma_map_entries_keys(s, f, k);
    let m = map_entries(s, f);
    if has_key(s, k) {
        assert(map_entries(sorted_put(s, k, e), f) =~= sorted_put(m, k, f(e)));
    } else {
        lemma_insert_position_exists(s, k);
        let p = choose|p: int| insert_at(s, k, p);
        assert forall|j: int| 0 <= j < p implies (#[trigger] m[j]).0 < k by {
            assert(s[j].0 < k);
        }
        assert forall|j: int| p <= j < m.len() implies (#[trigger] m[j]).0 > k by {
            assert(s[j].0 > k);
        }
        assert(insert_at(m, k, p));
        lemma_insert_at_unique(m, k, p);
        assert(map_entries(sorted_put(s, k, e), f) =~= sorted_put(m, k, f(e)));
    }
}

/// Sorted entries with the same sequences holding the same values are the same entries.
pub proof fn lemma_sorted_ext<V>(a: Seq<(u32, V)>, b: Seq<(u32, V)>)
    requires
        sorted_keys(a),
        sorted_keys(b),
        forall|k: u32| has_key(a, k) == has_key(b, k),
        forall|k: u32| has_key(a, k) ==> value_of(a, k) == value_of(b, k),
    ensures
        a == b,
    decreases a.len(),
{
    lemma_sorted_unique(a);
    lemma_sorted_unique(b);
    if a.len() == 0 {
        if b.len() > 0 {
            assert(has_key(b, b[0].0));
        }
        assert(a =~= b);
    } else {
        assert(has_key(a, a[0].0));
        let la = a.len() - 1;
        assert(b.len() > 0);
        let lb = b.len() - 1;
        let ka = a[la].0;
        let kb = b[lb].0;
        assert(has_key(a, ka));
        assert(has_key(b, kb));
        let ib = key_index(b, ka);
        let ia = key_index(a, kb);
        if ib < lb {
            assert(b[ib].0 < b[lb].0);
        }
        if ia < la {
            assert(a[ia].0 < a[la].0);
        }
        assert(ka == kb) by {
            assert(b[ib].0 == ka);
            assert(a[ia].0 == kb);
        }
        lemma_key_index(a, la);
        lemma_key_index(b, lb);
        assert(a[la] == b[lb]);
        let a2 = a.drop_last();
        let b2 = b.drop_last();
        assert(sorted_keys(a2)) by {
            assert forall|i: int, j: int| 0 <= i < j < a2.len() implies #[trigger] a2[i].0 < #[trigger] a2[j].0 by {
                assert(a2[i] == a[i] && a2[j] == a[j]);
            }
        }
        assert(sorted_keys(b2)) by {
            assert forall|i: int, j: int| 0 <= i < j < b2.len() implies #[trigger] b2[i].0 < #[trigger] b2[j].0 by {
                assert(b2[i] == b[i] && b2[j] == b[j]);
            }
        }
        lemma_sorted_unique(a2);
        lemma_sorted_unique(b2);
        assert forall|k: u32| has_key(a2, k) == has_key(b2, k) by {
            if has_key(a2, k) {
                let i = choose|i: int| 0 <= i < a2.len() && #[trigger] a2[i].0 == k;
                assert(a[i].0 == k);
                assert(a[i].0 < a[la].0);
                assert(has_key(b, k));
                let j = key_index(b, k);
                assert(j != lb);
                assert(b2[j].0 == k);
            }
            if has_key(b2, k) {
                let i = choose|i: int| 0 <= i < b2.len() && #[trigger] b2[i].0 == k;
                assert(b[i].0 == k);
                assert(b[i].0 < b[lb].0);
                assert(has_key(a, k));
                let j = key_index(a, k);
                assert(j != la);
                assert(a2[j].0 == k);
            }
        }
        assert forall|k: u32| has_key(a2, k) implies value_of(a2, k) == value_of(b2, k) by {
            let i = key_index(a2, k);
            lemma_key_index(a2, i);
            assert(a[i] == a2[i]);
            lemma_key_index(a, i);
            assert(has_key(b2, k));
            let j = key_index(b2, k);
            lemma_key_index(b2, j);
            assert(b[j] == b2[j]);
            lemma_key_index(b, j);
        }
        lemma_sorted_ext(a2, b2);
        assert(a =~= b) by {
            assert forall|i: int| 0 <= i < a.len() implies a[i] == b[i] by {
                if i < la {
                    assert(a[i] == a2[i] && b[i] == b2[i]);
                }
            }
        }
    }
}

/// Removing a sequence from sorted entries keeps them sorted.
pub proof fn lemma_remove_sorted_without<V>(s: Seq<(u32, V)>, k: u32)
    requires
        sorted_keys(s),
    ensures
        sorted_keys(without(s, k)),
{
    if has_key(s, k) {
        lemma_remove_sorted(s, key_index(s, k));
    }
}

} // verus!
