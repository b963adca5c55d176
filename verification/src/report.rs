//! Column layout for the operator's tabular reports: aligned fields, numbers and addresses.
use crate::decimal::{decimal_text, digit_char};
use crate::ipv4::Ipv4Addr;
use crate::text::{hex_char, hex_digit, str_chars, string_from_chars};
use vstd::prelude::*;

verus! {

/// `n` spaces.
pub open spec fn spaces(n: nat) -> Seq<char> {
    Seq::new(n, |_i: int| ' ')
}

/// `s` followed by spaces up to `width` characters, the layout of `{:<width}`.
pub open spec fn left_aligned(s: Seq<char>, width: nat) -> Seq<char> {
    if s.len() < width {
        s + spaces((width - s.len()) as nat)
    } else {
        s
    }
}

/// Spaces up to `width` characters followed by `s`, the layout of `{:>width}`.
pub open spec fn right_aligned(s: Seq<char>, width: nat) -> Seq<char> {
    if s.len() < width {
        spaces((width - s.len()) as nat) + s
    } else {
        s
    }
}

/// Dotted-decimal text of an address.
pub open spec fn ipv4_text(a: Ipv4Addr) -> Seq<char> {
    decimal_text((a.0 / 0x100_0000) as nat) + seq!['.'] + decimal_text(((a.0 / 0x1_0000) % 0x100) as nat)
        + seq!['.'] + decimal_text(((a.0 / 0x100) % 0x100) as nat) + seq!['.'] + decimal_text(
        (a.0 % 0x100) as nat,
    )
}

/// Lower-case hexadecimal text of the last `digits` nibbles of `n`, most significant
/// first, with leading zeros.
pub open spec fn hex_text(n: nat, digits: nat) -> Seq<char>
    decreases digits,
{
    if digits == 0 {
        Seq::empty()
    } else {
        hex_text(n / 16, (digits - 1) as nat).push(hex_char((n % 16) as u8))
    }
}

/// Append the characters of `s`.
pub fn push_str(out: &mut Vec<char>, s: &str)
    ensures
        final(out)@ == old(out)@ + s@,
{
    let chars = str_chars(s);
    push_chars(out, &chars);
}

/// Append the characters of `s`.
pub fn push_chars(out: &mut Vec<char>, s: &Vec<char>)
    ensures
        final(out)@ == old(out)@ + s@,
{
    let ghost start = out@;
    let mut i: usize = 0;
    while i < s.len()
        invariant
            i <= s@.len(),
            out@ == start + s@.take(i as int),
        decreases s@.len() - i,
    {
        out.push(s[i]);
        i = i + 1;
        assert(s@.take(i as int) =~= s@.take(i - 1).push(s@[i - 1]));
    }
    assert(s@.take(i as int) =~= s@);
}

/// Append `n` spaces.
pub fn push_spaces(out: &mut Vec<char>, n: usize)
    ensures
        final(out)@ == old(out)@ + spaces(n as nat),
{
    let ghost start = out@;
    let mut i: usize = 0;
    while i < n
        invariant
            i <= n,
            out@ == start + spaces(i as nat),
        decreases n - i,
    {
        out.push(' ');
        i = i + 1;
        assert(spaces(i as nat) =~= spaces((i - 1) as nat).push(' '));
    }
}

/// Append `s` left-aligned in a column of `width` characters.
pub fn push_left(out: &mut Vec<char>, s: &Vec<char>, width: usize)
    ensures
        final(out)@ == old(out)@ + left_aligned(s@, width as nat),
{
    push_chars(out, s);
    if s.len() < width {
        push_spaces(out, width - s.len());
    }
    assert(final(out)@ =~= old(out)@ + left_aligned(s@, width as nat)) by {
        if s@.len() < width {
            assert(old(out)@ + s@ + spaces((width - s@.len()) as nat) =~= old(out)@ + (s@ + spaces(
                (width - s@.len()) as nat,
            )));
        }
    }
}

/// Append `s` right-aligned in a column of `width` characters.
pub fn push_right(out: &mut Vec<char>, s: &Vec<char>, width: usize)
    ensures
        final(out)@ == old(out)@ + right_aligned(s@, width as nat),
{
    if s.len() < width {
        push_spaces(out, width - s.len());
    }
    push_chars(out, s);
    assert(final(out)@ =~= old(out)@ + right_aligned(s@, width as nat)) by {
        if s@.len() < width {
            assert(old(out)@ + spaces((width - s@.len()) as nat) + s@ =~= old(out)@ + (spaces(
                (width - s@.len()) as nat,
            ) + s@));
        }
    }
}

/// Append the shortest decimal text of `n`.
pub fn push_number(out: &mut Vec<char>, n: u64)
    ensures
        final(out)@ == old(out)@ + decimal_text(n as nat),
    decreases n,
{
    if n >= 10 {
        push_number(out, n / 10);
    }
    out.push(((n % 10) as u8 + 48) as char);
    proof {
        if n >= 10 {
            assert(decimal_text(n as nat) == decimal_text((n / 10) as nat).push(digit_char(
                (n % 10) as nat,
            )));
        }
    }
}

/// Append the shortest decimal text of a wide number.
pub fn push_wide_number(out: &mut Vec<char>, n: u128)
    ensures
        final(out)@ == old(out)@ + decimal_text(n as nat),
    decreases n,
{
    if n >= 10 {
        push_wide_number(out, n / 10);
    }
    out.push(((n % 10) as u8 + 48) as char);
    proof {
        if n >= 10 {
            assert(decimal_text(n as nat) == decimal_text((n / 10) as nat).push(digit_char(
                (n % 10) as nat,
            )));
        }
    }
}

/// The shortest decimal text of `n`.
pub fn number_chars(n: u64) -> (r: Vec<char>)
    ensures
        r@ == decimal_text(n as nat),
{
    let mut r: Vec<char> = Vec::new();
    push_number(&mut r, n);
    assert(r@ =~= decimal_text(n as nat));
    r
}

/// Dotted-decimal text of an address.
pub fn ipv4_chars(a: Ipv4Addr) -> (r: Vec<char>)
    ensures
        r@ == ipv4_text(a),
{
    let o = a.octets();
    let mut r: Vec<char> = Vec::new();
    push_number(&mut r, o[0] as u64);
    r.push('.');
    push_number(&mut r, o[1] as u64);
    r.push('.');
    push_number(&mut r, o[2] as u64);
    r.push('.');
    push_number(&mut r, o[3] as u64);
    assert(r@ =~= ipv4_text(a));
    r
}

/// Append the last `digits` nibbles of `n` in lower-case hexadecimal, with leading zeros.
pub fn push_hex(out: &mut Vec<char>, n: u64, digits: usize)
    ensures
        final(out)@ == old(out)@ + hex_text(n as nat, digits as nat),
    decreases digits,
{
    if digits > 0 {
        push_hex(out, n / 16, digits - 1);
        out.push(hex_digit((n % 16) as u8));
        proof {
            assert(hex_text(n as nat, digits as nat) == hex_text((n / 16) as nat, (digits - 1) as nat).push(
                hex_char((n % 16) as u8),
            ));
        }
    } else {
        assert(old(out)@ + hex_text(n as nat, 0) =~= old(out)@);
    }
}

/// The finished report as a string.
pub fn finish(out: Vec<char>) -> (r: String)
    ensures
        r@ == out@,
{
    string_from_chars(&out)
}

} // verus!
