//! Decimal digits: parsing bounded unsigned numbers and printing them.
use crate::text::ascii_bytes;
use vstd::prelude::*;

verus! {

/// ASCII decimal digit.
pub open spec fn is_digit(c: char) -> bool {
    48 <= (c as u32) <= 57
}

/// The value of an ASCII decimal digit.
pub open spec fn digit_of(c: char) -> nat {
    ((c as u32) - 48) as nat
}

/// The character of a decimal digit value.
pub open spec fn digit_char(n: nat) -> char {
    (48 + n) as char
}

/// Whether every character is an ASCII decimal digit.
pub open spec fn all_digits(s: Seq<char>) -> bool {
    forall|i: int| 0 <= i < s.len() ==> is_digit(#[trigger] s[i])
}

/// The value of a string of decimal digits (leading zeros allowed).
pub open spec fn digits_value(s: Seq<char>) -> nat
    decreases s.len(),
{
    if s.len() == 0 {
        0
    } else {
        digits_value(s.drop_last()) * 10 + digit_of(s.last())
    }
}

/// Shortest decimal text of a number.
pub open spec fn decimal_text(n: nat) -> Seq<char>
    decreases n,
{
    if n < 10 {
        seq![digit_char(n)]
    } else {
        decimal_text(n / 10).push(digit_char(n % 10))
    }
}

proof fn lemma_digits_value_monotone(s: Seq<char>, j: int, k: int)
    requires
        0 <= j <= k <= s.len(),
        all_digits(s),
    ensures
        digits_value(s.take(j)) <= digits_value(s.take(k)),
    decreases k - j,
{
    if j < k {
        lemma_digits_value_monotone(s, j, k - 1);
        assert(s.take(k).drop_last() =~= s.take(k - 1));
    }
}

/// Parse the characters `s[start..end]` as a decimal number no larger than `max`, as
/// `str::parse` does for an unsigned type whose maximum is `max`.
pub fn parse_decimal(s: &Vec<char>, start: usize, end: usize, max: u32) -> (r: Option<u32>)
    requires
        start <= end <= s@.len(),
    ensures
        r is Some <==> (start < end && all_digits(s@.subrange(start as int, end as int))
            && digits_value(s@.subrange(start as int, end as int)) <= max),
        r matches Some(v) ==> v == digits_value(s@.subrange(start as int, end as int)),
{
    if start == end {
        return None;
    }
    let ghost whole = s@.subrange(start as int, end as int);
    let mut value: u64 = 0;
    let mut i: usize = start;
    while i < end
        invariant
            start <= i <= end <= s@.len(),
            whole == s@.subrange(start as int, end as int),
            all_digits(whole.take(i - start)),
            value == digits_value(whole.take(i - start)),
            value <= max,
        decreases end - i,
    {
        let c = s[i];
        if !((c as u32) >= 48 && (c as u32) <= 57) {
            assert(!all_digits(whole)) by {
                assert(whole[i - start] == c);
            }
            return None;
        }
        assert(whole.take(i - start + 1).drop_last() =~= whole.take(i - start));
        value = value * 10 + ((c as u32) - 48) as u64;
        i = i + 1;
        if value > max as u64 {
            proof {
                if all_digits(whole) {
                    lemma_digits_value_monotone(whole, i - start, whole.len() as int);
                    assert(whole.take(whole.len() as int) =~= whole);
                }
            }
            return None;
        }
    }
    assert(whole.take(end - start) =~= whole);
    Some(value as u32)
}

/// Append the shortest decimal text of `n`.
pub fn push_decimal(out: &mut Vec<char>, n: u32)
    ensures
        final(out)@ == old(out)@ + decimal_text(n as nat),
    decreases n,
{
    if n >= 10 {
        push_decimal(out, n / 10);
    }
    out.push(((n % 10) as u8 + 48) as char);
    proof {
        if n >= 10 {
            assert(decimal_text(n as nat) == decimal_text((n / 10) as nat).push(digit_char(
                (n % 10) as nat,
            )));
        }
    }
}

/// Append the ASCII bytes of the shortest decimal text of `n`.
pub fn push_decimal_bytes(out: &mut Vec<u8>, n: usize)
    ensures
        final(out)@ == old(out)@ + ascii_bytes(decimal_text(n as nat)),
    decreases n,
{
    if n >= 10 {
        push_decimal_bytes(out, n / 10);
    }
    out.push((n % 10) as u8 + 48);
    proof {
        let d = digit_char((n % 10) as nat);
        assert(d as u8 == (n % 10) as u8 + 48);
        if n >= 10 {
            let t = decimal_text((n / 10) as nat);
            assert(decimal_text(n as nat) == t.push(d));
            assert(ascii_bytes(t.push(d)) =~= ascii_bytes(t).push(d as u8));
        } else {
            assert(ascii_bytes(seq![d]) =~= seq![d as u8]);
        }
    }
}

} // verus!
