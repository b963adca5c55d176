//! Why normalizing an interface name twice changes nothing: a canonical name spells its
//! family in full, its numbers in shortest decimal form and has no whitespace, so it names
//! itself.
use crate::decimal::{all_digits, decimal_text, digit_char, digit_of, digits_value, is_digit};
use crate::device::InterfaceKind;
use crate::interface_name::{
    abbreviates, base_canonical, canonical_spec, families, family_name, first_digit, first_index,
    is_alpha, is_space, join_numbers, lower, match_count, numbers_valid, slash_segments, split_canonical,
    split_char, strip_spaces, suffixed_name, word_starts,
};
use vstd::prelude::*;

verus! {

/// The shortest decimal text of a number is nonempty, made of digits, and reads back as the
/// number.
proof fn lemma_decimal_text(n: nat)
    ensures
        decimal_text(n).len() > 0,
        all_digits(decimal_text(n)),
        digits_value(decimal_text(n)) == n,
    decreases n,
{
    let t = decimal_text(n);
    if n < 10 {
        assert(t =~= seq![digit_char(n)]);
        assert(t.drop_last() =~= Seq::<char>::empty());
        assert(digit_of(digit_char(n)) == n);
        assert(digits_value(t.drop_last()) == 0);
        assert(t.last() == digit_char(n));
        assert(digits_value(t) == digits_value(t.drop_last()) * 10 + digit_of(t.last()));
    } else {
        lemma_decimal_text(n / 10);
        let d = decimal_text(n / 10);
        assert(t.drop_last() =~= d);
        assert(digit_of(digit_char(n % 10)) == n % 10);
        assert(is_digit(digit_char(n % 10)));
        assert forall|i: int| 0 <= i < t.len() implies is_digit(#[trigger] t[i]) by {
            if i < d.len() {
                assert(t[i] == d[i]);
            }
        }
        assert(t.last() == digit_char(n % 10));
        assert(digits_value(t) == digits_value(t.drop_last()) * 10 + digit_of(t.last()));
        assert(digits_value(t) == (n / 10) * 10 + n % 10);
        assert((n / 10) * 10 + n % 10 == n) by (nonlinear_arith);
    }
}

/// Splitting text that ends in a separator ends in an empty segment.
proof fn lemma_split_push_sep(a: Seq<char>, sep: char)
    ensures
        split_char(a.push(sep), sep) == split_char(a, sep).push(Seq::<char>::empty()),
{
    assert(a.push(sep).drop_last() =~= a);
}

/// Appending text without separators extends the last segment.
proof fn lemma_split_append(a: Seq<char>, b: Seq<char>, sep: char)
    requires
        forall|j: int| 0 <= j < b.len() ==> #[trigger] b[j] != sep,
    ensures
        split_char(a + b, sep).len() == split_char(a, sep).len(),
        split_char(a + b, sep) == split_char(a, sep).update(
            split_char(a, sep).len() - 1,
            split_char(a, sep).last() + b,
        ),
    decreases b.len(),
{
    lemma_split_nonempty(a, sep);
    if b.len() == 0 {
        assert(a + b =~= a);
        assert(split_char(a, sep).last() + b =~= split_char(a, sep).last());
        assert(split_char(a, sep).update(split_char(a, sep).len() - 1, split_char(a, sep).last()) =~= split_char(a, sep));
    } else {
        let b0 = b.drop_last();
        lemma_split_append(a, b0, sep);
        assert((a + b).drop_last() =~= a + b0);
        assert((a + b).last() == b.last());
        let r = split_char(a, sep);
        let r0 = split_char(a + b0, sep);
        assert(r0.last() == r.last() + b0);
        assert(r.last() + b0 + seq![b.last()] =~= r.last() + b);
        assert(r0.last().push(b.last()) =~= r.last() + b);
        assert(split_char(a + b, sep) =~= r.update(r.len() - 1, r.last() + b));
    }
}

/// Splitting always gives at least one segment.
proof fn lemma_split_nonempty(a: Seq<char>, sep: char)
    ensures
        split_char(a, sep).len() >= 1,
    decreases a.len(),
{
    if a.len() > 0 {
        lemma_split_nonempty(a.drop_last(), sep);
    }
}

/// Numbers joined by `/`: nonempty, starting with a digit, made of digits and `/`, and split
/// back at `/` into the numbers' decimal texts.
proof fn lemma_join_numbers(ns: Seq<nat>)
    requires
        ns.len() >= 1,
    ensures
        join_numbers(ns).len() > 0,
        is_digit(join_numbers(ns)[0]),
        forall|j: int| 0 <= j < join_numbers(ns).len() ==> is_digit(#[trigger] join_numbers(ns)[j]) || join_numbers(ns)[j] == '/',
        slash_segments(join_numbers(ns)) == ns.map_values(|n: nat| decimal_text(n)),
    decreases ns.len(),
{
    let dt = |n: nat| decimal_text(n);
    if ns.len() == 1 {
        let d = decimal_text(ns[0]);
        lemma_decimal_text(ns[0]);
        assert(join_numbers(ns) == d);
        assert forall|j: int| 0 <= j < d.len() implies #[trigger] d[j] != '/' by {
            assert(is_digit(d[j]));
        }
        lemma_split_append(Seq::<char>::empty(), d, '/');
        assert(Seq::<char>::empty() + d =~= d);
        assert(Seq::<char>::empty() + d =~= d);
        assert(split_char(Seq::<char>::empty(), '/') =~= seq![Seq::<char>::empty()]);
        assert(slash_segments(d) =~= ns.map_values(dt));
    } else {
        let init = ns.drop_last();
        lemma_join_numbers(init);
        let x = join_numbers(init);
        let d = decimal_text(ns.last());
        lemma_decimal_text(ns.last());
        let t = join_numbers(ns);
        assert(t == x + seq!['/'] + d);
        assert(x + seq!['/'] + d =~= x.push('/') + d);
        assert forall|j: int| 0 <= j < d.len() implies #[trigger] d[j] != '/' by {
            assert(is_digit(d[j]));
        }
        lemma_split_push_sep(x, '/');
        lemma_split_append(x.push('/'), d, '/');
        let r = split_char(x, '/');
        assert(split_char(x.push('/'), '/') == r.push(Seq::<char>::empty()));
        assert(Seq::<char>::empty() + d =~= d);
        assert(slash_segments(t) =~= r.push(d));
        assert(ns.map_values(dt) =~= init.map_values(dt).push(d));
        assert(t[0] == x[0]);
        assert forall|j: int| 0 <= j < t.len() implies is_digit(#[trigger] t[j]) || t[j] == '/' by {
            if j < x.len() {
                assert(t[j] == x[j]);
            } else if j > x.len() {
                assert(t[j] == d[j - x.len() - 1]);
            }
        }
    }
}

/// A valid numeric suffix written in shortest form names the same numbers again.
proof fn lemma_suffix_round_trip(kind: InterfaceKind, ns: Seq<nat>)
    requires
        numbers_valid(kind, ns),
        forall|j: int| 0 <= j < ns.len() ==> #[trigger] ns[j] <= 0xffff,
    ensures
        suffixed_name(kind, join_numbers(ns)) == Some((family_name(kind) + join_numbers(ns), kind)),
{
    lemma_join_numbers(ns);
    let suffix = join_numbers(ns);
    let segs = slash_segments(suffix);
    assert forall|j: int| 0 <= j < suffix.len() implies is_digit(#[trigger] suffix[j]) || suffix[j] == '/' by {}
    assert forall|j: int| 0 <= j < segs.len() implies (#[trigger] segs[j]).len() > 0 && digits_value(segs[j]) <= 0xffff by {
        lemma_decimal_text(ns[j]);
        assert(segs[j] == decimal_text(ns[j]));
    }
    let vals = segs.map_values(|g: Seq<char>| digits_value(g));
    assert forall|j: int| 0 <= j < ns.len() implies #[trigger] vals[j] == ns[j] by {
        lemma_decimal_text(ns[j]);
        assert(segs[j] == decimal_text(ns[j]));
    }
    assert(vals =~= ns);
}

/// The families' names: nonempty, made of letters and `-`, and each abbreviates itself and
/// no other family.
proof fn lemma_family(i: int)
    requires
        0 <= i < 7,
    ensures
        family_name(families()[i]).len() > 0,
        forall|j: int| 0 <= j < family_name(families()[i]).len() ==> is_alpha(#[trigger] family_name(families()[i])[j]) || family_name(families()[i])[j] == '-',
        forall|m: int| 0 <= m < 7 ==> (abbreviates(family_name(families()[i]), family_name(#[trigger] families()[m])) <==> m == i),
        match_count(family_name(families()[i]), 7) == 1,
{
    reveal_strlit("GigabitEthernet");
    reveal_strlit("TenGigabitEthernet");
    reveal_strlit("Serial");
    reveal_strlit("Console");
    reveal_strlit("Port-channel");
    reveal_strlit("Loopback");
    reveal_strlit("Vlan");
    let f = family_name(families()[i]);
    assert forall|m: int| 0 <= m < 7 implies (abbreviates(f, family_name(#[trigger] families()[m])) <==> m == i) by {
        let g = family_name(families()[m]);
        if m != i {
            assert(lower(f[0]) != lower(g[0]));
        }
    }
    reveal_with_fuel(match_count, 8);
    assert(match_count(f, 7) == 1);
}

/// Text without whitespace is left as it is by stripping whitespace.
proof fn lemma_strip_no_spaces(t: Seq<char>)
    requires
        forall|j: int| 0 <= j < t.len() ==> !is_space(#[trigger] t[j]),
    ensures
        strip_spaces(t) == t,
    decreases t.len(),
{
    if t.len() > 0 {
        let d = t.drop_last();
        assert forall|j: int| 0 <= j < d.len() implies !is_space(#[trigger] d[j]) by {
            assert(d[j] == t[j]);
        }
        lemma_strip_no_spaces(d);
        assert(d.push(t.last()) =~= t);
    }
}

/// Nonempty text without whitespace is one word.
proof fn lemma_one_word(t: Seq<char>, m: int)
    requires
        forall|j: int| 0 <= j < t.len() ==> !is_space(#[trigger] t[j]),
        1 <= m <= t.len(),
    ensures
        word_starts(t, m) == 1,
    decreases m,
{
    if m > 1 {
        lemma_one_word(t, m - 1);
        assert(!is_space(t[m - 2]));
    } else {
        assert(word_starts(t, 0) == 0);
        assert(!is_space(t[0]));
    }
}

/// A family's name followed by valid numbers in shortest form is its own canonical name; it
/// holds no whitespace and no `.`.
proof fn lemma_base_round_trip(i: int, ns: Seq<nat>)
    requires
        0 <= i < 7,
        numbers_valid(families()[i], ns),
        forall|j: int| 0 <= j < ns.len() ==> #[trigger] ns[j] <= 0xffff,
    ensures
        base_canonical(family_name(families()[i]) + join_numbers(ns)) == Some((family_name(families()[i]) + join_numbers(ns), families()[i])),
        (family_name(families()[i]) + join_numbers(ns)).len() > 0,
        forall|j: int| 0 <= j < (family_name(families()[i]) + join_numbers(ns)).len()
            ==> !is_space(#[trigger] (family_name(families()[i]) + join_numbers(ns))[j])
                && (family_name(families()[i]) + join_numbers(ns))[j] != '.',
{
    let k = families()[i];
    let f = family_name(k);
    let x = join_numbers(ns);
    let t = f + x;
    let n = f.len() as int;
    lemma_family(i);
    lemma_join_numbers(ns);
    lemma_suffix_round_trip(k, ns);
    assert forall|j: int| 0 <= j < t.len() implies !is_space(#[trigger] t[j]) && t[j] != '.' && (j < n ==> !is_digit(t[j])) by {
        if j < n {
            assert(t[j] == f[j]);
            assert(is_alpha(f[j]) || f[j] == '-');
        } else {
            assert(t[j] == x[j - n]);
            assert(is_digit(x[j - n]) || x[j - n] == '/');
        }
    }
    assert(t[n] == x[0]);
    assert(first_digit(t, n));
    let k2 = choose|k2: int| first_digit(t, k2);
    if k2 < n {
        assert(!is_digit(t[k2]));
    } else if k2 > n {
        assert(!is_digit(t[n]));
    }
    assert(k2 == n);
    assert(t.take(n) =~= f);
    assert(t.skip(n) =~= x);
    let i2 = choose|i2: int| 0 <= i2 < 7 && abbreviates(f, family_name(#[trigger] families()[i2]));
    assert(abbreviates(f, family_name(families()[i])));
    assert(i2 == i);
    assert(split_canonical(t, n) == suffixed_name(k, x));
}

/// A family counted among the first `n` is one of them.
proof fn lemma_match_count_witness(f: Seq<char>, n: int)
    requires
        match_count(f, n) > 0,
    ensures
        exists|i: int| 0 <= i < n && abbreviates(f, family_name(#[trigger] families()[i])),
    decreases n,
{
    if n > 0 && match_count(f, n - 1) > 0 {
        lemma_match_count_witness(f, n - 1);
    }
}

/// What a name without whitespace or `.` normalizes to is its own canonical name, of a family
/// (not a subinterface), and holds no whitespace and no `.`.
proof fn lemma_base_fixed(c: Seq<char>)
    requires
        base_canonical(c) is Some,
    ensures
        base_canonical(base_canonical(c).unwrap().0) == base_canonical(c),
        base_canonical(c).unwrap().0.len() > 0,
        base_canonical(c).unwrap().1 != InterfaceKind::EthernetSubinterface,
        forall|j: int| 0 <= j < base_canonical(c).unwrap().0.len()
            ==> !is_space(#[trigger] base_canonical(c).unwrap().0[j]) && base_canonical(c).unwrap().0[j] != '.',
{
    let k = choose|k: int| first_digit(c, k);
    let family = c.take(k);
    assert(match_count(family, 7) == 1);
    lemma_match_count_witness(family, 7);
    let i = choose|i: int| 0 <= i < 7 && abbreviates(family, family_name(#[trigger] families()[i]));
    let kind = families()[i];
    let suffix = c.skip(k);
    let segs = slash_segments(suffix);
    let ns = segs.map_values(|g: Seq<char>| digits_value(g));
    assert(suffixed_name(kind, suffix) is Some);
    assert forall|j: int| 0 <= j < ns.len() implies #[trigger] ns[j] <= 0xffff by {
        assert(ns[j] == digits_value(segs[j]));
    }
    assert(base_canonical(c) == Some((family_name(kind) + join_numbers(ns), kind)));
    lemma_base_round_trip(i, ns);
}

/// The first occurrence of a character is where it first occurs.
proof fn lemma_first_index_unique(t: Seq<char>, ch: char, k: int)
    requires
        first_index(t, ch, k),
    ensures
        (choose|q: int| first_index(t, ch, q)) == k,
{
    let q = choose|q: int| first_index(t, ch, q);
    if q < k {
        assert(t[q] != ch);
    } else if q > k {
        assert(t[k] != ch);
    }
}

/// Normalizing a canonical name gives it back: whatever a name normalizes to normalizes to
/// itself, with the same family.
pub proof fn lemma_canonical_fixed_point(s: Seq<char>)
    requires
        canonical_spec(s) is Some,
    ensures
        canonical_spec(canonical_spec(s).unwrap().0) == canonical_spec(s),
{
    let c = strip_spaces(s);
    let (name, kind) = canonical_spec(s).unwrap();
    if exists|k: int| first_index(c, '.', k) {
        let k = choose|k: int| first_index(c, '.', k);
        let parent = c.take(k);
        let number = c.skip(k + 1);
        let v = digits_value(number);
        lemma_base_fixed(parent);
        let (p, pk) = base_canonical(parent).unwrap();
        let d = decimal_text(v);
        lemma_decimal_text(v);
        assert(name == p + seq!['.'] + d);
        let n = p.len() as int;
        assert forall|j: int| 0 <= j < name.len() implies !is_space(#[trigger] name[j]) && (j < n ==> name[j] != '.') by {
            if j < n {
                assert(name[j] == p[j]);
            } else if j > n {
                assert(name[j] == d[j - n - 1]);
                assert(is_digit(d[j - n - 1]));
            }
        }
        lemma_strip_no_spaces(name);
        lemma_one_word(name, name.len() as int);
        assert(name[n] == '.');
        assert(first_index(name, '.', n));
        lemma_first_index_unique(name, '.', n);
        assert(name.take(n) =~= p);
        assert(name.skip(n + 1) =~= d);
        assert(canonical_spec(name) == Some((p + seq!['.'] + decimal_text(digits_value(d)), InterfaceKind::EthernetSubinterface)));
    } else {
        lemma_base_fixed(c);
        assert(base_canonical(c) == Some((name, kind)));
        lemma_strip_no_spaces(name);
        lemma_one_word(name, name.len() as int);
        assert(!exists|k: int| first_index(name, '.', k));
    }
}

} // verus!
