//! Normalization of interface names: unambiguous family prefixes, numeric suffixes and
//! subinterface numbers.
use crate::decimal::{
    all_digits, decimal_text, digits_value, is_digit, parse_decimal, push_decimal,
};
use crate::device::{DeviceError, InterfaceKind};
use crate::text::{str_chars, string_from_chars};
use vstd::prelude::*;
use vstd::string::StrSliceExecFns;

verus! {

/// Unicode `White_Space` characters, as `char::is_whitespace` classifies them.
pub open spec fn is_space(c: char) -> bool {
    let v = c as u32;
    ||| 0x09 <= v <= 0x0d
    ||| v == 0x20
    ||| v == 0x85
    ||| v == 0xa0
    ||| v == 0x1680
    ||| 0x2000 <= v <= 0x200a
    ||| v == 0x2028
    ||| v == 0x2029
    ||| v == 0x202f
    ||| v == 0x205f
    ||| v == 0x3000
}

/// ASCII letter.
pub open spec fn is_alpha(c: char) -> bool {
    (65 <= (c as u32) <= 90) || (97 <= (c as u32) <= 122)
}

/// ASCII lower-casing; other characters are unchanged.
pub open spec fn lower(c: char) -> char {
    if 65 <= (c as u32) <= 90 {
        ((c as u32) + 32) as char
    } else {
        c
    }
}

/// Number of whitespace-separated words that start in `s[0..n]`.
pub open spec fn word_starts(s: Seq<char>, n: int) -> nat
    decreases n,
{
    if n <= 0 {
        0
    } else {
        word_starts(s, n - 1) + if !is_space(s[n - 1]) && (n == 1 || is_space(s[n - 2])) {
            1nat
        } else {
            0nat
        }
    }
}

/// The characters of `s` without its whitespace.
pub open spec fn strip_spaces(s: Seq<char>) -> Seq<char>
    decreases s.len(),
{
    if s.len() == 0 {
        s
    } else if is_space(s.last()) {
        strip_spaces(s.drop_last())
    } else {
        strip_spaces(s.drop_last()).push(s.last())
    }
}

/// Whether the first word of `s` holds a character other than an ASCII letter or `-`.
pub open spec fn first_word_bad(s: Seq<char>) -> bool {
    exists|i: int|
        0 <= i < s.len() && !is_space(s[i]) && word_starts(s, i + 1) == 1 && !(is_alpha(
            #[trigger] s[i],
        ) || s[i] == '-')
}

/// Whether `k` is the index of the first occurrence of `c` in `s`.
pub open spec fn first_index(s: Seq<char>, c: char, k: int) -> bool {
    0 <= k < s.len() && s[k] == c && forall|j: int| 0 <= j < k ==> s[j] != c
}

/// Whether `k` is the index of the first ASCII digit in `s`.
pub open spec fn first_digit(s: Seq<char>, k: int) -> bool {
    0 <= k < s.len() && is_digit(s[k]) && forall|j: int| 0 <= j < k ==> !is_digit(s[j])
}

/// Segments of `s` between `sep` separators, as `str::split` with a character yields them.
pub open spec fn split_char(s: Seq<char>, sep: char) -> Seq<Seq<char>>
    decreases s.len(),
{
    if s.len() == 0 {
        seq![Seq::<char>::empty()]
    } else {
        let r = split_char(s.drop_last(), sep);
        if s.last() == sep {
            r.push(Seq::<char>::empty())
        } else {
            r.update(r.len() - 1, r.last().push(s.last()))
        }
    }
}

/// Segments of `s` between `/` separators.
pub open spec fn slash_segments(s: Seq<char>) -> Seq<Seq<char>> {
    split_char(s, '/')
}

/// Numbers joined by `/`.
pub open spec fn join_numbers(ns: Seq<nat>) -> Seq<char>
    decreases ns.len(),
{
    if ns.len() == 0 {
        Seq::<char>::empty()
    } else if ns.len() == 1 {
        decimal_text(ns[0])
    } else {
        join_numbers(ns.drop_last()) + seq!['/'] + decimal_text(ns.last())
    }
}

/// Canonical spelling of an interface family.
pub open spec fn family_name(kind: InterfaceKind) -> Seq<char> {
    match kind {
        InterfaceKind::GigabitEthernet => "GigabitEthernet"@,
        InterfaceKind::TenGigabitEthernet => "TenGigabitEthernet"@,
        InterfaceKind::Serial => "Serial"@,
        InterfaceKind::Console => "Console"@,
        InterfaceKind::PortChannel => "Port-channel"@,
        InterfaceKind::Loopback => "Loopback"@,
        InterfaceKind::Vlan => "Vlan"@,
        InterfaceKind::EthernetSubinterface => Seq::<char>::empty(),
    }
}

/// Whether a nonempty `family` is a case-insensitive prefix of `name`.
pub open spec fn abbreviates(family: Seq<char>, name: Seq<char>) -> bool {
    &&& 0 < family.len() <= name.len()
    &&& forall|i: int| 0 <= i < family.len() ==> lower(#[trigger] family[i]) == lower(name[i])
}

/// The families that can be named, in the order they are tried.
pub open spec fn families() -> Seq<InterfaceKind> {
    seq![
        InterfaceKind::GigabitEthernet,
        InterfaceKind::TenGigabitEthernet,
        InterfaceKind::Serial,
        InterfaceKind::Console,
        InterfaceKind::PortChannel,
        InterfaceKind::Loopback,
        InterfaceKind::Vlan,
    ]
}

/// How many families `family` abbreviates among the first `n`.
pub open spec fn match_count(family: Seq<char>, n: int) -> nat
    decreases n,
{
    if n <= 0 {
        0
    } else {
        match_count(family, n - 1) + if abbreviates(family, family_name(families()[n - 1])) {
            1nat
        } else {
            0nat
        }
    }
}

/// Whether the numeric suffix is allowed for the family.
pub open spec fn numbers_valid(kind: InterfaceKind, ns: Seq<nat>) -> bool {
    match kind {
        InterfaceKind::GigabitEthernet | InterfaceKind::TenGigabitEthernet
        | InterfaceKind::Serial => 2 <= ns.len() <= 3,
        InterfaceKind::EthernetSubinterface => false,
        InterfaceKind::PortChannel => ns.len() == 1 && 1 <= ns[0] <= 4096,
        InterfaceKind::Console | InterfaceKind::Loopback => ns.len() == 1,
        InterfaceKind::Vlan => ns.len() == 1 && 1 <= ns[0] <= 4094,
    }
}

/// The canonical name of a family followed by a numeric suffix, if the suffix is valid.
pub open spec fn suffixed_name(kind: InterfaceKind, suffix: Seq<char>) -> Option<
    (Seq<char>, InterfaceKind),
> {
    let segs = slash_segments(suffix);
    if !(forall|j: int|
        0 <= j < suffix.len() ==> is_digit(#[trigger] suffix[j]) || suffix[j] == '/') {
        None
    } else if !(forall|j: int|
        0 <= j < segs.len() ==> (#[trigger] segs[j]).len() > 0 && digits_value(segs[j])
            <= 0xffff) {
        None
    } else {
        let ns = segs.map_values(|g: Seq<char>| digits_value(g));
        if !numbers_valid(kind, ns) {
            None
        } else {
            Some((family_name(kind) + join_numbers(ns), kind))
        }
    }
}

/// The canonical name of `c` when its first digit is at `k`.
pub open spec fn split_canonical(c: Seq<char>, k: int) -> Option<(Seq<char>, InterfaceKind)> {
    let family = c.take(k);
    if match_count(family, 7) != 1 {
        None
    } else {
        let i = choose|i: int|
            0 <= i < 7 && abbreviates(family, family_name(#[trigger] families()[i]));
        suffixed_name(families()[i], c.skip(k))
    }
}

/// The canonical name and family of a name without whitespace or `.`, if it is valid.
pub open spec fn base_canonical(c: Seq<char>) -> Option<(Seq<char>, InterfaceKind)> {
    if !(exists|k: int| first_digit(c, k)) {
        None
    } else {
        split_canonical(c, choose|k: int| first_digit(c, k))
    }
}

/// The canonical name and family that an interface name normalizes to, if it is valid.
pub open spec fn canonical_spec(s: Seq<char>) -> Option<(Seq<char>, InterfaceKind)> {
    let n = word_starts(s, s.len() as int);
    let c = strip_spaces(s);
    if n > 2 || (n == 2 && first_word_bad(s)) {
        None
    } else if exists|k: int| first_index(c, '.', k) {
        let k = choose|k: int| first_index(c, '.', k);
        let parent = c.take(k);
        let number = c.skip(k + 1);
        if parent.len() == 0 || number.len() == 0 || !all_digits(number) || digits_value(number)
            > 0xffff_ffff || digits_value(number) == 0 {
            None
        } else {
            match base_canonical(parent) {
                Some((p, kind)) => if kind == InterfaceKind::GigabitEthernet || kind
                    == InterfaceKind::TenGigabitEthernet {
                    Some(
                        (
                            p + seq!['.'] + decimal_text(digits_value(number)),
                            InterfaceKind::EthernetSubinterface,
                        ),
                    )
                } else {
                    None
                },
                None => None,
            }
        }
    } else {
        base_canonical(c)
    }
}

/// The text an invalid name is reported with: the whole input, except for a subinterface
/// whose number is valid but whose parent is not a known interface, which reports the
/// parent as written without spaces.
pub open spec fn canonical_error_text(s: Seq<char>) -> Seq<char> {
    let n = word_starts(s, s.len() as int);
    let c = strip_spaces(s);
    if !(n > 2 || (n == 2 && first_word_bad(s))) && exists|k: int| first_index(c, '.', k) {
        let k = choose|k: int| first_index(c, '.', k);
        let parent = c.take(k);
        let number = c.skip(k + 1);
        if parent.len() == 0 || number.len() == 0 || !all_digits(number) || digits_value(number)
            > 0xffff_ffff || digits_value(number) == 0 {
            s
        } else if base_canonical(parent) is None {
            parent
        } else {
            s
        }
    } else {
        s
    }
}

/// Whether a character is Unicode whitespace.
pub fn is_whitespace(c: char) -> (r: bool)
    ensures
        r == is_space(c),
{
    let v = c as u32;
    (0x09 <= v && v <= 0x0d) || v == 0x20 || v == 0x85 || v == 0xa0 || v == 0x1680 || (0x2000
        <= v && v <= 0x200a) || v == 0x2028 || v == 0x2029 || v == 0x202f || v == 0x205f || v
        == 0x3000
}

pub(crate) fn lower_char(c: char) -> (r: char)
    ensures
        r == lower(c),
{
    let v = c as u32;
    if 65 <= v && v <= 90 {
        ((v as u8) + 32) as char
    } else {
        c
    }
}

/// Word count, first-word validity and whitespace-free text of a name.
fn scan_words(s: &Vec<char>) -> (r: (usize, bool, Vec<char>))
    ensures
        r.0 == word_starts(s@, s@.len() as int),
        r.1 == first_word_bad(s@),
        r.2@ == strip_spaces(s@),
{
    let mut count: usize = 0;
    let mut bad = false;
    let mut compact: Vec<char> = Vec::new();
    let mut i: usize = 0;
    while i < s.len()
        invariant
            i <= s@.len(),
            count == word_starts(s@, i as int),
            count <= i,
            bad <==> exists|j: int|
                0 <= j < i && !is_space(s@[j]) && word_starts(s@, j + 1) == 1 && !(is_alpha(
                    #[trigger] s@[j],
                ) || s@[j] == '-'),
            compact@ == strip_spaces(s@.take(i as int)),
        decreases s@.len() - i,
    {
        let c = s[i];
        let space = is_whitespace(c);
        if !space && (i == 0 || is_whitespace(s[i - 1])) {
            count = count + 1;
        }
        assert(count == word_starts(s@, i + 1));
        let v = c as u32;
        if !space && count == 1 && !((65 <= v && v <= 90) || (97 <= v && v <= 122) || c == '-') {
            bad = true;
        }
        assert(s@.take(i + 1).drop_last() =~= s@.take(i as int));
        if !space {
            compact.push(c);
        }
        i = i + 1;
    }
    assert(s@.take(s@.len() as int) =~= s@);
    assert(first_word_bad(s@) == exists|j: int|
        0 <= j < s@.len() && !is_space(s@[j]) && word_starts(s@, j + 1) == 1 && !(is_alpha(
            #[trigger] s@[j],
        ) || s@[j] == '-'));
    (count, bad, compact)
}

/// Index of the first `c` in `s[start..]`, relative to `start`.
pub fn find_char(s: &Vec<char>, start: usize, c: char) -> (r: Option<usize>)
    requires
        start <= s@.len(),
    ensures
        r is None <==> !(exists|k: int| first_index(s@.skip(start as int), c, k)),
        r matches Some(k) ==> first_index(s@.skip(start as int), c, k as int),
{
    let ghost t = s@.skip(start as int);
    let mut i: usize = start;
    while i < s.len()
        invariant
            start <= i <= s@.len(),
            t == s@.skip(start as int),
            forall|j: int| 0 <= j < i - start ==> t[j] != c,
        decreases s@.len() - i,
    {
        if s[i] == c {
            assert(t[i - start] == c);
            assert(first_index(t, c, (i - start) as int));
            return Some(i - start);
        }
        i = i + 1;
    }
    assert forall|k: int| !first_index(t, c, k) by {
        if first_index(t, c, k) {
            assert(t[k] == c);
        }
    }
    None
}

/// Index of the first ASCII digit of `s`.
fn find_digit(s: &Vec<char>) -> (r: Option<usize>)
    ensures
        r is None <==> !(exists|k: int| first_digit(s@, k)),
        r matches Some(k) ==> first_digit(s@, k as int),
{
    let mut i: usize = 0;
    while i < s.len()
        invariant
            i <= s@.len(),
            forall|j: int| 0 <= j < i ==> !is_digit(s@[j]),
        decreases s@.len() - i,
    {
        let v = s[i] as u32;
        if 48 <= v && v <= 57 {
            assert(first_digit(s@, i as int));
            return Some(i);
        }
        i = i + 1;
    }
    assert forall|k: int| !first_digit(s@, k) by {
        if first_digit(s@, k) {
            assert(is_digit(s@[k]));
        }
    }
    None
}

proof fn lemma_first_digit_unique(s: Seq<char>, a: int, b: int)
    requires
        first_digit(s, a),
        first_digit(s, b),
    ensures
        a == b,
{
}

pub proof fn lemma_first_index_unique(s: Seq<char>, c: char, a: int, b: int)
    requires
        first_index(s, c, a),
        first_index(s, c, b),
    ensures
        a == b,
{
}

pub proof fn lemma_split_char_nonempty(s: Seq<char>, sep: char)
    ensures
        split_char(s, sep).len() >= 1,
    decreases s.len(),
{
    if s.len() > 0 {
        lemma_split_char_nonempty(s.drop_last(), sep);
    }
}

/// The `sep`-separated segments of `s[start..]`.
pub fn split_chars(s: &Vec<char>, start: usize, sep: char) -> (r: Vec<Vec<char>>)
    requires
        start <= s@.len(),
    ensures
        r@.len() == split_char(s@.skip(start as int), sep).len(),
        forall|j: int|
            0 <= j < r@.len() ==> (#[trigger] r@[j])@ == split_char(s@.skip(start as int), sep)[j],
{
    let ghost t = s@.skip(start as int);
    let mut segs: Vec<Vec<char>> = Vec::new();
    segs.push(Vec::new());
    let mut i: usize = start;
    assert(t.take(0) =~= Seq::<char>::empty());
    while i < s.len()
        invariant
            start <= i <= s@.len(),
            t == s@.skip(start as int),
            segs@.len() == split_char(t.take(i - start), sep).len(),
            segs@.len() >= 1,
            forall|j: int|
                0 <= j < segs@.len() ==> (#[trigger] segs@[j])@ == split_char(t.take(i - start), sep)[j],
        decreases s@.len() - i,
    {
        let c = s[i];
        let ghost before = split_char(t.take(i - start), sep);
        assert(t.take(i - start + 1).drop_last() =~= t.take(i - start));
        assert(t.take(i - start + 1).last() == c);
        if c == sep {
            segs.push(Vec::new());
        } else {
            let mut last = segs.pop().unwrap();
            last.push(c);
            segs.push(last);
        }
        i = i + 1;
    }
    assert(t.take(s@.len() - start) =~= t);
    segs
}

fn abbreviates_exec(family: &Vec<char>, name: &Vec<char>) -> (r: bool)
    ensures
        r == abbreviates(family@, name@),
{
    if family.len() == 0 || family.len() > name.len() {
        return false;
    }
    let mut i: usize = 0;
    while i < family.len()
        invariant
            i <= family@.len() <= name@.len(),
            forall|j: int| 0 <= j < i ==> lower(#[trigger] family@[j]) == lower(name@[j]),
        decreases family@.len() - i,
    {
        if lower_char(family[i]) != lower_char(name[i]) {
            return false;
        }
        i = i + 1;
    }
    true
}

fn family_chars(kind: InterfaceKind) -> (r: Vec<char>)
    requires
        kind != InterfaceKind::EthernetSubinterface,
    ensures
        r@ == family_name(kind),
{
    match kind {
        InterfaceKind::GigabitEthernet => str_chars("GigabitEthernet"),
        InterfaceKind::TenGigabitEthernet => str_chars("TenGigabitEthernet"),
        InterfaceKind::Serial => str_chars("Serial"),
        InterfaceKind::Console => str_chars("Console"),
        InterfaceKind::PortChannel => str_chars("Port-channel"),
        InterfaceKind::Loopback => str_chars("Loopback"),
        InterfaceKind::Vlan => str_chars("Vlan"),
        InterfaceKind::EthernetSubinterface => Vec::new(),
    }
}

fn family_at(i: usize) -> (k: InterfaceKind)
    requires
        i < 7,
    ensures
        k == families()[i as int],
{
    match i {
        0 => InterfaceKind::GigabitEthernet,
        1 => InterfaceKind::TenGigabitEthernet,
        2 => InterfaceKind::Serial,
        3 => InterfaceKind::Console,
        4 => InterfaceKind::PortChannel,
        5 => InterfaceKind::Loopback,
        _ => InterfaceKind::Vlan,
    }
}

pub fn copy_chars(s: &Vec<char>, start: usize, end: usize) -> (r: Vec<char>)
    requires
        start <= end <= s@.len(),
    ensures
        r@ == s@.subrange(start as int, end as int),
{
    let mut out: Vec<char> = Vec::new();
    let mut i: usize = start;
    while i < end
        invariant
            start <= i <= end <= s@.len(),
            out@ == s@.subrange(start as int, i as int),
        decreases end - i,
    {
        out.push(s[i]);
        i = i + 1;
        assert(s@.subrange(start as int, i as int) =~= s@.subrange(start as int, i - 1) + seq![
            s@[i - 1],
        ]);
    }
    out
}

proof fn lemma_segments_digits(t: Seq<char>)
    requires
        forall|i: int| 0 <= i < t.len() ==> is_digit(#[trigger] t[i]) || t[i] == '/',
    ensures
        forall|j: int|
            0 <= j < slash_segments(t).len() ==> all_digits(#[trigger] slash_segments(t)[j]),
    decreases t.len(),
{
    if t.len() > 0 {
        let u = t.drop_last();
        assert forall|i: int| 0 <= i < u.len() implies is_digit(#[trigger] u[i]) || u[i] == '/' by {
            assert(u[i] == t[i]);
        }
        lemma_segments_digits(u);
        lemma_split_char_nonempty(u, '/');
        let r = slash_segments(u);
        if t.last() != '/' {
            assert(is_digit(t[t.len() - 1]));
            assert forall|j: int|
                0 <= j < slash_segments(t).len() implies all_digits(
                #[trigger] slash_segments(t)[j],
            ) by {
                if j == r.len() - 1 {
                    let g = r.last().push(t.last());
                    assert(slash_segments(t)[j] == g);
                    assert forall|m: int| 0 <= m < g.len() implies is_digit(#[trigger] g[m]) by {
                        if m < g.len() - 1 {
                            assert(g[m] == r.last()[m]);
                        }
                    }
                } else {
                    assert(slash_segments(t)[j] == r[j]);
                }
            }
        } else {
            assert forall|j: int|
                0 <= j < slash_segments(t).len() implies all_digits(
                #[trigger] slash_segments(t)[j],
            ) by {
                if j < r.len() {
                    assert(slash_segments(t)[j] == r[j]);
                }
            }
        }
    }
}

proof fn lemma_match_count_bounds(family: Seq<char>, n: int)
    ensures
        match_count(family, n) <= if n < 0 { 0 } else { n },
    decreases n,
{
    if n > 0 {
        lemma_match_count_bounds(family, n - 1);
    }
}

/// The canonical name and family of a name without whitespace or `.`.
#[verifier::loop_isolation(false)]
#[verifier::rlimit(40)]
fn base_canonical_exec(c: &Vec<char>) -> (r: Option<(Vec<char>, InterfaceKind)>)
    ensures
        match r {
            Some((name, kind)) => base_canonical(c@) == Some((name@, kind)),
            None => base_canonical(c@) is None,
        },
{
    let k = match find_digit(c) {
        None => return None,
        Some(k) => k,
    };
    proof {
        let k2 = choose|k2: int| first_digit(c@, k2);
        lemma_first_digit_unique(c@, k as int, k2);
        assert(base_canonical(c@) == split_canonical(c@, k as int));
    }
    let family = copy_chars(c, 0, k);
    assert(family@ =~= c@.take(k as int));
    let mut count: usize = 0;
    let mut found: usize = 0;
    let mut i: usize = 0;
    while i < 7
        invariant
            i <= 7,
            count == match_count(family@, i as int),
            count >= 1 ==> found < i && abbreviates(family@, family_name(families()[found as int])),
            count == 0 ==> forall|j: int|
                0 <= j < i ==> !abbreviates(family@, family_name(#[trigger] families()[j])),
            count == 1 ==> forall|j: int|
                0 <= j < i && abbreviates(family@, family_name(#[trigger] families()[j])) ==> j
                    == found,
        decreases 7 - i,
    {
        let kind = family_at(i);
        let name = family_chars(kind);
        let hit = abbreviates_exec(&family, &name);
        proof {
            lemma_match_count_bounds(family@, i as int);
        }
        if hit {
            if count == 0 {
                found = i;
            }
            count = count + 1;
        }
        i = i + 1;
    }
    if count != 1 {
        return None;
    }
    let kind = family_at(found);
    let ghost suffix = c@.skip(k as int);
    proof {
        let i2 = choose|i2: int|
            0 <= i2 < 7 && abbreviates(family@, family_name(#[trigger] families()[i2]));
        assert(families()[i2] == kind);
        assert(split_canonical(c@, k as int) == suffixed_name(kind, suffix));
    }
    let mut j: usize = k;
    while j < c.len()
        invariant
            k <= j <= c@.len(),
            suffix == c@.skip(k as int),
            forall|m: int| 0 <= m < j - k ==> is_digit(#[trigger] suffix[m]) || suffix[m] == '/',
        decreases c@.len() - j,
    {
        let v = c[j] as u32;
        if !((48 <= v && v <= 57) || c[j] == '/') {
            assert(!(is_digit(suffix[j - k]) || suffix[j - k] == '/'));
            assert(suffixed_name(kind, suffix) is None);
            return None;
        }
        j = j + 1;
    }
    let segs = split_chars(c, k, '/');
    let ghost spec_segs = slash_segments(suffix);
    proof {
        lemma_segments_digits(suffix);
    }
    let mut numbers: Vec<u32> = Vec::new();
    let mut m: usize = 0;
    while m < segs.len()
        invariant
            m <= segs@.len(),
            segs@.len() == spec_segs.len(),
            forall|q: int| 0 <= q < segs@.len() ==> (#[trigger] segs@[q])@ == spec_segs[q],
            forall|q: int| 0 <= q < spec_segs.len() ==> all_digits(#[trigger] spec_segs[q]),
            numbers@.len() == m,
            forall|q: int|
                0 <= q < m ==> (#[trigger] spec_segs[q]).len() > 0 && digits_value(spec_segs[q])
                    <= 0xffff,
            forall|q: int| 0 <= q < m ==> #[trigger] numbers@[q] == digits_value(spec_segs[q]),
        decreases segs@.len() - m,
    {
        let seg = &segs[m];
        assert(seg@ == spec_segs[m as int]);
        assert(seg@.subrange(0, seg@.len() as int) =~= seg@);
        match parse_decimal(seg, 0, seg.len(), 0xffff) {
            Some(v) => {
                assert(spec_segs[m as int].len() > 0);
                assert(v == digits_value(spec_segs[m as int]));
                let ghost old_numbers = numbers@;
                numbers.push(v);
                assert(forall|q: int| 0 <= q < m ==> numbers@[q] == old_numbers[q]);
                assert(numbers@[m as int] == digits_value(spec_segs[m as int]));
            },
            None => {
                assert(!(spec_segs[m as int].len() > 0 && digits_value(spec_segs[m as int])
                    <= 0xffff));
                return None;
            },
        }
        m = m + 1;
    }
    let ghost ns = spec_segs.map_values(|g: Seq<char>| digits_value(g));
    assert(forall|q: int| 0 <= q < ns.len() ==> #[trigger] ns[q] == numbers@[q]);
    let n = numbers.len();
    let valid = match kind {
        InterfaceKind::GigabitEthernet | InterfaceKind::TenGigabitEthernet
        | InterfaceKind::Serial => 2 <= n && n <= 3,
        InterfaceKind::EthernetSubinterface => false,
        InterfaceKind::PortChannel => n == 1 && 1 <= numbers[0] && numbers[0] <= 4096,
        InterfaceKind::Console | InterfaceKind::Loopback => n == 1,
        InterfaceKind::Vlan => n == 1 && 1 <= numbers[0] && numbers[0] <= 4094,
    };
    if !valid {
        return None;
    }
    let mut out = family_chars(kind);
    let mut q: usize = 0;
    while q < n
        invariant
            q <= n == numbers@.len() == ns.len(),
            forall|x: int| 0 <= x < ns.len() ==> #[trigger] ns[x] == numbers@[x],
            out@ == family_name(kind) + join_numbers(ns.take(q as int)),
        decreases n - q,
    {
        let ghost before = out@;
        if q > 0 {
            out.push('/');
        }
        push_decimal(&mut out, numbers[q]);
        assert(ns.take(q + 1).drop_last() =~= ns.take(q as int));
        proof {
            if q == 0 {
                assert(join_numbers(ns.take(0)) =~= Seq::<char>::empty());
                assert(join_numbers(ns.take(1)) == decimal_text(ns.take(1)[0]));
                assert(out@ =~= family_name(kind) + join_numbers(ns.take(1)));
            } else {
                assert(out@ =~= family_name(kind) + join_numbers(ns.take(q + 1)));
            }
        }
        q = q + 1;
    }
    assert(ns.take(n as int) =~= ns);
    assert(forall|x: int|
        0 <= x < suffix.len() ==> is_digit(#[trigger] suffix[x]) || suffix[x] == '/');
    assert(forall|x: int|
        0 <= x < spec_segs.len() ==> (#[trigger] spec_segs[x]).len() > 0 && digits_value(
            spec_segs[x],
        ) <= 0xffff);
    assert(numbers_valid(kind, ns));
    assert(suffixed_name(kind, suffix) == Some((out@, kind)));
    Some((out, kind))
}

/// Normalize an unambiguous interface-family prefix and validate its numeric suffix.
pub fn canonical_interface(input: &str) -> (r: Result<(String, InterfaceKind), DeviceError>)
    ensures
        match r {
            Ok((name, kind)) => canonical_spec(input@) == Some((name@, kind)),
            Err(e) => {
                &&& canonical_spec(input@) is None
                &&& e matches DeviceError::InvalidInterface(t)
                &&& t@ == canonical_error_text(input@)
            },
        },
{
    let s = str_chars(input);
    let (count, bad, compact) = scan_words(&s);
    if count > 2 || (count == 2 && bad) {
        return Err(DeviceError::InvalidInterface(input.to_owned()));
    }
    match find_char(&compact, 0, '.') {
        Some(k) => {
            proof {
                assert(compact@.skip(0) =~= compact@);
                let k2 = choose|k2: int| first_index(compact@, '.', k2);
                lemma_first_index_unique(compact@, '.', k as int, k2);
            }
            let len = compact.len();
            if k == 0 || k + 1 == len {
                return Err(DeviceError::InvalidInterface(input.to_owned()));
            }
            let ghost number = compact@.skip(k + 1);
            assert(compact@.subrange(k + 1, len as int) =~= number);
            let value = match parse_decimal(&compact, k + 1, len, 0xffff_ffff) {
                Some(v) => v,
                None => return Err(DeviceError::InvalidInterface(input.to_owned())),
            };
            if value == 0 {
                return Err(DeviceError::InvalidInterface(input.to_owned()));
            }
            let parent = copy_chars(&compact, 0, k);
            assert(parent@ =~= compact@.take(k as int));
            match base_canonical_exec(&parent) {
                Some((mut name, kind)) => {
                    if !kind.is_ethernet() {
                        return Err(DeviceError::InvalidInterface(input.to_owned()));
                    }
                    let ghost p = name@;
                    name.push('.');
                    push_decimal(&mut name, value);
                    assert(name@ =~= p + seq!['.'] + decimal_text(value as nat));
                    Ok((string_from_chars(&name), InterfaceKind::EthernetSubinterface))
                },
                None => Err(DeviceError::InvalidInterface(string_from_chars(&parent))),
            }
        },
        None => {
            assert(compact@.skip(0) =~= compact@);
            match base_canonical_exec(&compact) {
                Some((name, kind)) => Ok((string_from_chars(&name), kind)),
                None => Err(DeviceError::InvalidInterface(input.to_owned())),
            }
        },
    }
}

/// Whether `k` is the index of the last character of `s` that is not an ASCII digit.
pub open spec fn last_non_digit(s: Seq<char>, k: int) -> bool {
    &&& 0 <= k < s.len()
    &&& !is_digit(s[k])
    &&& forall|j: int| k < j < s.len() ==> is_digit(#[trigger] s[j])
}

/// The stem and trailing number of a name such as `GigabitEthernet0/12`, if the name ends
/// in a number that fits 16 bits.
pub open spec fn sequence_spec(s: Seq<char>) -> Option<(Seq<char>, nat)> {
    if !(exists|k: int| last_non_digit(s, k)) {
        None
    } else {
        let k = choose|k: int| last_non_digit(s, k);
        let number = s.skip(k + 1);
        if number.len() == 0 || digits_value(number) > 0xffff {
            None
        } else {
            Some((s.take(k + 1), digits_value(number)))
        }
    }
}

/// Split a name into its stem and trailing number.
pub fn interface_sequence(name: &str) -> (r: Option<(&str, u16)>)
    requires
        forall|k: int| last_non_digit(name@, k) ==> (name@[k] as u32) < 128,
    ensures
        match r {
            Some((stem, n)) => sequence_spec(name@) == Some((stem@, n as nat)),
            None => sequence_spec(name@) is None,
        },
{
    let s = str_chars(name);
    let mut i: usize = s.len();
    while i > 0
        invariant
            i <= s@.len(),
            s@ == name@,
            forall|j: int| i <= j < s@.len() ==> is_digit(#[trigger] s@[j]),
        ensures
            i <= s@.len(),
            s@ == name@,
            forall|j: int| i <= j < s@.len() ==> is_digit(#[trigger] s@[j]),
            i > 0 ==> !is_digit(s@[i - 1]),
        decreases i,
    {
        let v = s[i - 1] as u32;
        if !(48 <= v && v <= 57) {
            break;
        }
        i = i - 1;
    }
    if i == 0 {
        assert forall|k: int| !last_non_digit(s@, k) by {
            if last_non_digit(s@, k) {
                assert(is_digit(s@[k]));
            }
        }
        return None;
    }
    let k = i - 1;
    assert(last_non_digit(s@, k as int));
    proof {
        let k2 = choose|k2: int| last_non_digit(s@, k2);
        assert(k2 == k) by {
            if k2 < k {
                assert(is_digit(s@[k as int]));
            } else if k2 > k {
                assert(is_digit(s@[k2]));
            }
        }
    }
    let len = s.len();
    assert(s@.subrange(i as int, len as int) =~= s@.skip(i as int));
    let value = match parse_decimal(&s, i, len, 0xffff) {
        Some(v) => v,
        None => {
            proof {
                lemma_suffix_digits(s@, i as int);
            }
            return None;
        },
    };
    let stem = name.substring_char(0, i);
    assert(stem@ =~= s@.take(i as int));
    Some((stem, value as u16))
}

proof fn lemma_suffix_digits(s: Seq<char>, i: int)
    requires
        0 <= i <= s.len(),
        forall|j: int| i <= j < s.len() ==> is_digit(#[trigger] s[j]),
    ensures
        all_digits(s.skip(i)),
{
    assert forall|j: int| 0 <= j < s.skip(i).len() implies is_digit(#[trigger] s.skip(i)[j]) by {
        assert(s.skip(i)[j] == s[i + j]);
    }
}

} // verus!
