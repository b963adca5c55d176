//! Bounded one-request HTTP/1.1 responder; no OS sockets, filesystem or wall clock.
use crate::decimal::{decimal_text, push_decimal_bytes};
use crate::interface_name::{
    find_char, first_index, is_space, is_whitespace, lemma_first_index_unique,
    lemma_split_char_nonempty, lower, split_char, split_chars,
};
use crate::text::{append_bytes, ascii_bytes, copy_range, str_chars};
use vstd::prelude::*;
use vstd::string::StringSliceAdditionalSpecFns;
use vstd::utf8::{decode_utf8, valid_utf8};

verus! {

/// Largest request head, in bytes, including its terminating blank line.
pub const MAX_HEADER: usize = 8192;

/// The status that a request is answered with.
#[derive(Debug, Clone, Copy, PartialEq, Eq, Structural)]
pub enum HttpStatus {
    Success,
    BadRequest,
    NotFound,
    MethodNotAllowed,
    HeaderTooLarge,
}

/// Status line text of a status.
pub open spec fn status_text(st: HttpStatus) -> Seq<u8> {
    match st {
        HttpStatus::Success => "200 OK".spec_bytes(),
        HttpStatus::BadRequest => "400 Bad Request".spec_bytes(),
        HttpStatus::NotFound => "404 Not Found".spec_bytes(),
        HttpStatus::MethodNotAllowed => "405 Method Not Allowed".spec_bytes(),
        HttpStatus::HeaderTooLarge => "431 Request Header Fields Too Large".spec_bytes(),
    }
}

/// The bytes of a complete response: status line, framing headers, and the body unless
/// the request was `HEAD`. `Content-Length` always gives the body's length.
pub open spec fn reply_bytes(st: HttpStatus, body: Seq<u8>, head: bool) -> Seq<u8> {
    "HTTP/1.1 ".spec_bytes() + status_text(st) + "\r\nContent-Length: ".spec_bytes()
        + ascii_bytes(decimal_text(body.len()))
        + "\r\nContent-Type: text/plain; charset=utf-8\r\nConnection: close\r\n".spec_bytes() + (
    if st == HttpStatus::MethodNotAllowed {
        "Allow: GET, HEAD\r\n".spec_bytes()
    } else {
        Seq::<u8>::empty()
    }) + "\r\n".spec_bytes() + if head {
        Seq::<u8>::empty()
    } else {
        body
    }
}

/// Whether `p` is the first position of a blank line `\r\n\r\n` in `input`.
pub open spec fn head_end(input: Seq<u8>, p: int) -> bool {
    &&& 0 <= p && p + 4 <= input.len()
    &&& input.subrange(p, p + 4) == seq![13u8, 10u8, 13u8, 10u8]
    &&& forall|q: int|
        0 <= q < p ==> #[trigger] input.subrange(q, q + 4) != seq![13u8, 10u8, 13u8, 10u8]
}

/// Whether `s[i..i + 2]` is a line break.
pub open spec fn crlf_at(s: Seq<char>, i: int) -> bool {
    0 <= i && i + 1 < s.len() && s[i] == '\r' && s[i + 1] == '\n'
}

/// Position of the first line break at or after `from`, or -1.
pub open spec fn next_crlf(s: Seq<char>, from: int) -> int
    decreases s.len() - from,
{
    if from < 0 || from + 1 >= s.len() {
        -1
    } else if crlf_at(s, from) {
        from
    } else {
        next_crlf(s, from + 1)
    }
}

pub proof fn lemma_next_crlf(s: Seq<char>, from: int)
    requires
        0 <= from,
    ensures
        next_crlf(s, from) == -1 || (from <= next_crlf(s, from) && crlf_at(
            s,
            next_crlf(s, from),
        )),
    decreases s.len() - from,
{
    if from + 1 < s.len() && !crlf_at(s, from) {
        lemma_next_crlf(s, from + 1);
    }
}

/// The lines of `s[from..]` separated by `\r\n`, as `str::split("\r\n")` yields them.
pub open spec fn lines_from(s: Seq<char>, from: int) -> Seq<Seq<char>>
    decreases s.len() - from,
{
    if from < 0 || from > s.len() {
        Seq::<Seq<char>>::empty()
    } else {
        let k = next_crlf(s, from);
        if k < 0 {
            seq![s.subrange(from, s.len() as int)]
        } else {
            proof {
                lemma_next_crlf(s, from);
            }
            seq![s.subrange(from, k)] + lines_from(s, k + 2)
        }
    }
}

/// Header-name token characters.
pub open spec fn is_tchar(c: char) -> bool {
    let v = c as u32;
    ||| 48 <= v <= 57
    ||| 65 <= v <= 90
    ||| 97 <= v <= 122
    ||| v == 33 || v == 35 || v == 36 || v == 37 || v == 38 || v == 39 || v == 42 || v == 43
    ||| v == 45 || v == 46 || v == 94 || v == 95 || v == 96 || v == 124 || v == 126
}

/// Control characters other than horizontal tab.
pub open spec fn is_ctl(c: char) -> bool {
    let v = c as u32;
    (v < 32 && v != 9) || v == 127
}

/// ASCII case-insensitive equality.
pub open spec fn ci_equal(a: Seq<char>, b: Seq<char>) -> bool {
    a.len() == b.len() && forall|i: int| 0 <= i < a.len() ==> lower(#[trigger] a[i]) == lower(b[i])
}

/// Whether a value is empty after trimming whitespace.
pub open spec fn blank(v: Seq<char>) -> bool {
    forall|i: int| 0 <= i < v.len() ==> is_space(#[trigger] v[i])
}

/// Whether a value is `0` after trimming whitespace.
pub open spec fn trims_to_zero(v: Seq<char>) -> bool {
    exists|i: int|
        0 <= i < v.len() && v[i] == '0' && forall|j: int|
            0 <= j < v.len() && j != i ==> is_space(#[trigger] v[j])
}

/// Name of a header field line: the text before its first `:`.
pub open spec fn field_name(line: Seq<char>) -> Seq<char> {
    line.take(choose|k: int| first_index(line, ':', k))
}

/// Value of a header field line: the text after its first `:`.
pub open spec fn field_value(line: Seq<char>) -> Seq<char> {
    line.skip((choose|k: int| first_index(line, ':', k)) + 1)
}

/// Whether a header field line is acceptable on its own.
pub open spec fn field_ok(line: Seq<char>) -> bool {
    let name = field_name(line);
    let value = field_value(line);
    &&& exists|k: int| first_index(line, ':', k)
    &&& name.len() > 0
    &&& forall|i: int| 0 <= i < name.len() ==> is_tchar(#[trigger] name[i])
    &&& forall|i: int| 0 <= i < value.len() ==> !is_ctl(#[trigger] value[i])
    &&& ci_equal(name, "host"@) ==> !blank(value)
    &&& ci_equal(name, "content-length"@) ==> trims_to_zero(value)
    &&& !ci_equal(name, "transfer-encoding"@)
}

/// How many field lines are named `target`, ignoring ASCII case.
pub open spec fn count_fields(lines: Seq<Seq<char>>, target: Seq<char>) -> nat
    decreases lines.len(),
{
    if lines.len() == 0 {
        0
    } else {
        count_fields(lines.drop_last(), target) + if ci_equal(field_name(lines.last()), target) {
            1nat
        } else {
            0nat
        }
    }
}

/// The status a complete request head (without its blank line) is answered with.
pub open spec fn request_status(h: Seq<char>) -> HttpStatus {
    let ls = lines_from(h, 0);
    let parts = split_char(ls[0], ' ');
    let fields = ls.skip(1);
    let v11 = parts.len() == 3 && parts[2] == "HTTP/1.1"@;
    let hosts = count_fields(fields, "host"@);
    if parts.len() != 3 || !(parts[2] == "HTTP/1.0"@ || v11) {
        HttpStatus::BadRequest
    } else if !(forall|i: int| 0 <= i < fields.len() ==> field_ok(#[trigger] fields[i])) {
        HttpStatus::BadRequest
    } else if count_fields(fields, "content-length"@) > 1 {
        HttpStatus::BadRequest
    } else if hosts > 1 || (v11 && hosts != 1) {
        HttpStatus::BadRequest
    } else if !(parts[0] == "GET"@ || parts[0] == "HEAD"@) {
        HttpStatus::MethodNotAllowed
    } else if parts[1] != "/"@ {
        HttpStatus::NotFound
    } else {
        HttpStatus::Success
    }
}

/// Whether the request method is `HEAD`.
pub open spec fn is_head(h: Seq<char>) -> bool {
    split_char(lines_from(h, 0)[0], ' ')[0] == "HEAD"@
}

/// The response to `input`, or `None` while the request head is incomplete.
pub open spec fn response_spec(input: Seq<u8>, body: Seq<u8>) -> Option<Seq<u8>> {
    let complete = exists|p: int| head_end(input, p);
    let p = choose|p: int| head_end(input, p);
    if input.len() > MAX_HEADER && (!complete || p + 4 > MAX_HEADER) {
        Some(reply_bytes(HttpStatus::HeaderTooLarge, Seq::<u8>::empty(), false))
    } else if !complete {
        None
    } else if !valid_utf8(input.take(p)) {
        Some(reply_bytes(HttpStatus::BadRequest, Seq::<u8>::empty(), false))
    } else {
        let h = decode_utf8(input.take(p));
        let st = request_status(h);
        if st == HttpStatus::Success {
            Some(reply_bytes(st, body, is_head(h)))
        } else if st == HttpStatus::NotFound {
            Some(reply_bytes(st, Seq::<u8>::empty(), is_head(h)))
        } else {
            Some(reply_bytes(st, Seq::<u8>::empty(), false))
        }
    }
}

/// Trusted: `std::str::from_utf8`, which gives the bytes as text exactly when they are
/// valid UTF-8; the text's UTF-8 encoding is then those bytes.
#[verifier::external_body]
fn utf8_text<'a>(bytes: &'a [u8]) -> (r: Option<&'a str>)
    ensures
        r is Some <==> valid_utf8(bytes@),
        r matches Some(text) ==> text.spec_bytes() == bytes@,
{
    std::str::from_utf8(bytes).ok()
}

/// Decode UTF-8 text into its characters, if it is valid UTF-8.
fn utf8_chars(bytes: &[u8]) -> (r: Option<Vec<char>>)
    ensures
        r is Some <==> valid_utf8(bytes@),
        r matches Some(chars) ==> chars@ == decode_utf8(bytes@),
{
    match utf8_text(bytes) {
        Some(text) => {
            proof {
                vstd::utf8::encode_utf8_decode_utf8(text@);
            }
            Some(str_chars(text))
        },
        None => None,
    }
}

fn find_head_end(input: &[u8]) -> (r: Option<usize>)
    ensures
        r is None <==> !(exists|p: int| head_end(input@, p)),
        r matches Some(p) ==> head_end(input@, p as int),
{
    let n = input.len();
    let mut q: usize = 0;
    while n >= 4 && q <= n - 4
        invariant
            n == input@.len(),
            forall|x: int|
                0 <= x < q ==> #[trigger] input@.subrange(x, x + 4) != seq![13u8, 10u8, 13u8, 10u8],
        decreases n - q,
    {
        if input[q] == 13 && input[q + 1] == 10 && input[q + 2] == 13 && input[q + 3] == 10 {
            assert(input@.subrange(q as int, q + 4) =~= seq![13u8, 10u8, 13u8, 10u8]);
            assert(head_end(input@, q as int));
            return Some(q);
        }
        assert(input@.subrange(q as int, q + 4) != seq![13u8, 10u8, 13u8, 10u8]) by {
            if input@.subrange(q as int, q + 4) == seq![13u8, 10u8, 13u8, 10u8] {
                assert(input@.subrange(q as int, q + 4)[0] == input@[q as int]);
                assert(input@.subrange(q as int, q + 4)[1] == input@[q + 1]);
                assert(input@.subrange(q as int, q + 4)[2] == input@[q + 2]);
                assert(input@.subrange(q as int, q + 4)[3] == input@[q + 3]);
            }
        }
        q = q + 1;
    }
    assert forall|p: int| !head_end(input@, p) by {
        if head_end(input@, p) {
            assert(input@.subrange(p, p + 4) == seq![13u8, 10u8, 13u8, 10u8]);
        }
    }
    None
}

proof fn lemma_next_crlf_skip(s: Seq<char>, from: int, i: int)
    requires
        0 <= from <= i,
        forall|j: int| from <= j < i ==> !crlf_at(s, j),
        i + 1 < s.len() || i >= from,
    ensures
        next_crlf(s, from) == next_crlf(s, i),
    decreases i - from,
{
    if from < i {
        assert(!crlf_at(s, from));
        if from + 1 < s.len() {
            lemma_next_crlf_skip(s, from + 1, i);
        } else {
            assert(next_crlf(s, from) == -1);
            assert(next_crlf(s, i) == -1);
        }
    }
}

fn split_lines(h: &Vec<char>) -> (r: Vec<Vec<char>>)
    ensures
        r@.len() == lines_from(h@, 0).len(),
        forall|j: int| 0 <= j < r@.len() ==> (#[trigger] r@[j])@ == lines_from(h@, 0)[j],
{
    let n = h.len();
    let mut lines: Vec<Vec<char>> = Vec::new();
    let mut current: Vec<char> = Vec::new();
    let mut start: usize = 0;
    let mut i: usize = 0;
    while i < n
        invariant
            n == h@.len(),
            start <= i <= n,
            current@ == h@.subrange(start as int, i as int),
            forall|j: int| start <= j < i ==> !crlf_at(h@, j),
            lines@.len() + lines_from(h@, start as int).len() == lines_from(h@, 0).len(),
            forall|j: int|
                0 <= j < lines@.len() ==> (#[trigger] lines@[j])@ == lines_from(h@, 0)[j],
            forall|j: int|
                0 <= j < lines_from(h@, start as int).len() ==> #[trigger] lines_from(
                    h@,
                    start as int,
                )[j] == lines_from(h@, 0)[lines@.len() + j],
        decreases n - i,
    {
        if i + 1 < n && h[i] == '\r' && h[i + 1] == '\n' {
            proof {
                lemma_next_crlf_skip(h@, start as int, i as int);
                assert(crlf_at(h@, i as int));
                assert(next_crlf(h@, start as int) == i);
                assert(lines_from(h@, start as int) == seq![h@.subrange(start as int, i as int)]
                    + lines_from(h@, i + 2));
            }
            let ghost old_lines = lines@;
            let ghost old_start = start as int;
            let ghost rest = lines_from(h@, old_start);
            assert(rest[0] == h@.subrange(old_start, i as int));
            assert(rest[0] == lines_from(h@, 0)[old_lines.len() as int]);
            lines.push(current);
            current = Vec::new();
            start = i + 2;
            i = i + 2;
            proof {
                assert(forall|j: int| 0 <= j < old_lines.len() ==> lines@[j] == old_lines[j]);
                assert(lines@[old_lines.len() as int]@ == lines_from(h@, 0)[old_lines.len() as int]);
                assert forall|j: int|
                    0 <= j < lines_from(h@, start as int).len() implies #[trigger] lines_from(
                    h@,
                    start as int,
                )[j] == lines_from(h@, 0)[lines@.len() + j] by {
                    assert(rest[j + 1] == lines_from(h@, start as int)[j]);
                }
                assert(h@.subrange(start as int, i as int) =~= Seq::<char>::empty());
            }
        } else {
            assert(!crlf_at(h@, i as int));
            current.push(h[i]);
            i = i + 1;
            assert(current@ =~= h@.subrange(start as int, i as int));
        }
    }
    proof {
        if start < n {
            lemma_next_crlf_skip(h@, start as int, (n - 1) as int);
            assert(!crlf_at(h@, n - 1));
            assert(next_crlf(h@, (n - 1) as int) == -1);
        }
        assert(next_crlf(h@, start as int) == -1);
        assert(lines_from(h@, start as int) == seq![h@.subrange(start as int, n as int)]);
    }
    let ghost old_lines = lines@;
    lines.push(current);
    assert(forall|j: int| 0 <= j < old_lines.len() ==> lines@[j] == old_lines[j]);
    assert(lines_from(h@, start as int)[0] == lines_from(h@, 0)[old_lines.len() as int]);
    lines
}

fn lower_char(c: char) -> (r: char)
    ensures
        r == lower(c),
{
    let v = c as u32;
    if 65 <= v && v <= 90 {
        ((v as u8) + 32) as char
    } else {
        c
    }
}

/// Whether `s[start..end]` equals `lit` ignoring ASCII case.
fn ci_equal_range(s: &Vec<char>, start: usize, end: usize, lit: &str) -> (r: bool)
    requires
        start <= end <= s@.len(),
    ensures
        r == ci_equal(s@.subrange(start as int, end as int), lit@),
{
    let t = str_chars(lit);
    let ghost a = s@.subrange(start as int, end as int);
    if end - start != t.len() {
        return false;
    }
    let mut i: usize = 0;
    while i < t.len()
        invariant
            a == s@.subrange(start as int, end as int),
            t@ == lit@,
            end - start == t@.len(),
            start <= end <= s@.len(),
            i <= t@.len(),
            forall|j: int| 0 <= j < i ==> lower(#[trigger] a[j]) == lower(t@[j]),
        decreases t@.len() - i,
    {
        if lower_char(s[start + i]) != lower_char(t[i]) {
            assert(a[i as int] == s@[start + i]);
            return false;
        }
        i = i + 1;
    }
    true
}

/// Whether `s` equals `lit` exactly.
fn equal_str(s: &Vec<char>, lit: &str) -> (r: bool)
    ensures
        r == (s@ == lit@),
{
    let t = str_chars(lit);
    if s.len() != t.len() {
        return false;
    }
    let mut i: usize = 0;
    while i < t.len()
        invariant
            t@ == lit@,
            s@.len() == t@.len(),
            i <= t@.len(),
            forall|j: int| 0 <= j < i ==> s@[j] == t@[j],
        decreases t@.len() - i,
    {
        if s[i] != t[i] {
            return false;
        }
        i = i + 1;
    }
    assert(s@ =~= t@);
    true
}

/// Whether `s[start..end]` is empty after trimming whitespace.
fn blank_range(s: &Vec<char>, start: usize, end: usize) -> (r: bool)
    requires
        start <= end <= s@.len(),
    ensures
        r == blank(s@.subrange(start as int, end as int)),
{
    let ghost a = s@.subrange(start as int, end as int);
    let mut i: usize = start;
    while i < end
        invariant
            a == s@.subrange(start as int, end as int),
            start <= i <= end <= s@.len(),
            forall|j: int| 0 <= j < i - start ==> is_space(#[trigger] a[j]),
        decreases end - i,
    {
        if !is_whitespace(s[i]) {
            assert(a[i - start] == s@[i as int]);
            return false;
        }
        i = i + 1;
    }
    true
}

/// Whether `s[start..end]` is `0` after trimming whitespace.
fn zero_range(s: &Vec<char>, start: usize, end: usize) -> (r: bool)
    requires
        start <= end <= s@.len(),
    ensures
        r == trims_to_zero(s@.subrange(start as int, end as int)),
{
    let ghost a = s@.subrange(start as int, end as int);
    let mut i: usize = start;
    while i < end && is_whitespace(s[i])
        invariant
            a == s@.subrange(start as int, end as int),
            start <= i <= end <= s@.len(),
            forall|j: int| 0 <= j < i - start ==> is_space(#[trigger] a[j]),
        decreases end - i,
    {
        i = i + 1;
    }
    if i == end {
        assert forall|x: int| !(0 <= x < a.len() && a[x] == '0' && forall|j: int|
            0 <= j < a.len() && j != x ==> is_space(#[trigger] a[j])) by {
            if 0 <= x < a.len() && a[x] == '0' {
                assert(is_space(a[x]));
            }
        }
        return false;
    }
    let first = i;
    assert(a[first - start] == s@[first as int]);
    if s[first] != '0' {
        assert forall|x: int| !(0 <= x < a.len() && a[x] == '0' && forall|j: int|
            0 <= j < a.len() && j != x ==> is_space(#[trigger] a[j])) by {
            if 0 <= x < a.len() && a[x] == '0' && x != first - start {
                assert(!is_space(a[first - start]));
            }
        }
        return false;
    }
    i = first + 1;
    while i < end
        invariant
            a == s@.subrange(start as int, end as int),
            start <= first < i <= end <= s@.len(),
            a[first - start] == '0',
            forall|j: int| 0 <= j < first - start ==> is_space(#[trigger] a[j]),
            forall|j: int| first - start < j < i - start ==> is_space(#[trigger] a[j]),
        decreases end - i,
    {
        if !is_whitespace(s[i]) {
            assert(a[i - start] == s@[i as int]);
            assert forall|x: int| !(0 <= x < a.len() && a[x] == '0' && forall|j: int|
                0 <= j < a.len() && j != x ==> is_space(#[trigger] a[j])) by {
                if 0 <= x < a.len() && a[x] == '0' {
                    if x == first - start {
                        assert(!is_space(a[i - start]));
                    } else {
                        assert(a[first - start] == '0');
                        assert(!is_space(a[first - start]));
                    }
                }
            }
            return false;
        }
        i = i + 1;
    }
    assert(forall|j: int|
        0 <= j < a.len() && j != first - start ==> is_space(#[trigger] a[j]));
    true
}

/// Acceptability of one header field line, and whether it is `Host` or `Content-Length`.
#[verifier::loop_isolation(false)]
fn check_field(line: &Vec<char>) -> (r: (bool, bool, bool))
    ensures
        r.0 == field_ok(line@),
        r.0 ==> r.1 == ci_equal(field_name(line@), "host"@) && r.2 == ci_equal(
            field_name(line@),
            "content-length"@,
        ),
{
    assert(line@.skip(0) =~= line@);
    let k = match find_char(line, 0, ':') {
        None => return (false, false, false),
        Some(k) => k,
    };
    proof {
        let k2 = choose|k2: int| first_index(line@, ':', k2);
        lemma_first_index_unique(line@, ':', k as int, k2);
    }
    let n = line.len();
    let ghost name = field_name(line@);
    let ghost value = field_value(line@);
    assert(name =~= line@.subrange(0, k as int));
    assert(value =~= line@.subrange(k + 1, n as int));
    if k == 0 {
        return (false, false, false);
    }
    let mut i: usize = 0;
    while i < k
        invariant
            name == line@.subrange(0, k as int),
            k < n == line@.len(),
            i <= k,
            forall|j: int| 0 <= j < i ==> is_tchar(#[trigger] name[j]),
        decreases k - i,
    {
        let v = line[i] as u32;
        if !((48 <= v && v <= 57) || (65 <= v && v <= 90) || (97 <= v && v <= 122) || v == 33
            || v == 35 || v == 36 || v == 37 || v == 38 || v == 39 || v == 42 || v == 43 || v
            == 45 || v == 46 || v == 94 || v == 95 || v == 96 || v == 124 || v == 126) {
            assert(!is_tchar(name[i as int]));
            return (false, false, false);
        }
        i = i + 1;
    }
    let mut i: usize = k + 1;
    while i < n
        invariant
            value == line@.subrange(k + 1, n as int),
            k < n == line@.len(),
            k + 1 <= i <= n,
            forall|j: int| 0 <= j < i - k - 1 ==> !is_ctl(#[trigger] value[j]),
        decreases n - i,
    {
        let v = line[i] as u32;
        if (v < 32 && v != 9) || v == 127 {
            assert(is_ctl(value[i - k - 1]));
            return (false, false, false);
        }
        i = i + 1;
    }
    let host = ci_equal_range(line, 0, k, "host");
    let length = ci_equal_range(line, 0, k, "content-length");
    let chunked = ci_equal_range(line, 0, k, "transfer-encoding");
    if chunked {
        return (false, false, false);
    }
    if host && blank_range(line, k + 1, n) {
        return (false, false, false);
    }
    if length && !zero_range(line, k + 1, n) {
        return (false, false, false);
    }
    (true, host, length)
}

pub proof fn lemma_lines_nonempty(s: Seq<char>)
    ensures
        lines_from(s, 0).len() >= 1,
{
}

/// The status a request head is answered with, and whether its method is `HEAD`.
#[verifier::loop_isolation(false)]
fn request_status_exec(h: &Vec<char>) -> (r: (HttpStatus, bool))
    ensures
        r.0 == request_status(h@),
        r.1 == is_head(h@),
{
    let lines = split_lines(h);
    let ghost ls = lines_from(h@, 0);
    proof {
        lemma_lines_nonempty(h@);
    }
    let first = &lines[0];
    let parts = split_chars(first, 0, ' ');
    assert(first@.skip(0) =~= first@);
    let ghost ps = split_char(ls[0], ' ');
    proof {
        lemma_split_char_nonempty(ls[0], ' ');
    }
    assert(parts@[0]@ == ps[0]);
    let head = equal_str(&parts[0], "HEAD");
    if parts.len() != 3 {
        return (HttpStatus::BadRequest, head);
    }
    assert(parts@[1]@ == ps[1]);
    assert(parts@[2]@ == ps[2]);
    let v10 = equal_str(&parts[2], "HTTP/1.0");
    let v11 = equal_str(&parts[2], "HTTP/1.1");
    if !(v10 || v11) {
        return (HttpStatus::BadRequest, head);
    }
    let ghost fields = ls.skip(1);
    let mut hosts: usize = 0;
    let mut lengths: usize = 0;
    let mut i: usize = 1;
    while i < lines.len()
        invariant
            1 <= i <= lines@.len() == ls.len(),
            fields == ls.skip(1),
            forall|j: int| 0 <= j < lines@.len() ==> (#[trigger] lines@[j])@ == ls[j],
            forall|j: int| 0 <= j < i - 1 ==> field_ok(#[trigger] fields[j]),
            hosts == count_fields(fields.take(i - 1), "host"@),
            lengths == count_fields(fields.take(i - 1), "content-length"@),
            hosts <= i && lengths <= i,
        decreases lines@.len() - i,
    {
        let (ok, is_host, is_length) = check_field(&lines[i]);
        assert(lines@[i as int]@ == fields[i - 1]);
        if !ok {
            return (HttpStatus::BadRequest, head);
        }
        assert(fields.take(i as int).drop_last() =~= fields.take(i - 1));
        if is_host {
            hosts = hosts + 1;
        }
        if is_length {
            lengths = lengths + 1;
        }
        i = i + 1;
    }
    assert(fields.take(lines@.len() - 1) =~= fields);
    if lengths > 1 {
        return (HttpStatus::BadRequest, head);
    }
    if hosts > 1 || (v11 && hosts != 1) {
        return (HttpStatus::BadRequest, head);
    }
    if !(equal_str(&parts[0], "GET") || head) {
        return (HttpStatus::MethodNotAllowed, head);
    }
    if !equal_str(&parts[1], "/") {
        return (HttpStatus::NotFound, head);
    }
    (HttpStatus::Success, head)
}

/// Render a complete response.
fn reply(st: HttpStatus, body: &[u8], head: bool) -> (r: Vec<u8>)
    ensures
        r@ == reply_bytes(st, body@, head),
{
    let mut out: Vec<u8> = Vec::new();
    append_bytes(&mut out, "HTTP/1.1 ".as_bytes());
    let status = match st {
        HttpStatus::Success => "200 OK",
        HttpStatus::BadRequest => "400 Bad Request",
        HttpStatus::NotFound => "404 Not Found",
        HttpStatus::MethodNotAllowed => "405 Method Not Allowed",
        HttpStatus::HeaderTooLarge => "431 Request Header Fields Too Large",
    };
    assert(status.spec_bytes() == status_text(st));
    append_bytes(&mut out, status.as_bytes());
    append_bytes(&mut out, "\r\nContent-Length: ".as_bytes());
    push_decimal_bytes(&mut out, body.len());
    append_bytes(
        &mut out,
        "\r\nContent-Type: text/plain; charset=utf-8\r\nConnection: close\r\n".as_bytes(),
    );
    if matches!(st, HttpStatus::MethodNotAllowed) {
        append_bytes(&mut out, "Allow: GET, HEAD\r\n".as_bytes());
    } else {
        append_bytes(&mut out, &[]);
    }
    append_bytes(&mut out, "\r\n".as_bytes());
    if !head {
        append_bytes(&mut out, body);
    } else {
        append_bytes(&mut out, &[]);
    }
    assert(out@ =~= reply_bytes(st, body@, head));
    out
}

/// Answer one buffered request, or return `None` while its head is incomplete.
pub fn response(input: &[u8], body: &str) -> (r: Option<Vec<u8>>)
    ensures
        match r {
            Some(bytes) => response_spec(input@, body.spec_bytes()) == Some(bytes@),
            None => response_spec(input@, body.spec_bytes()) is None,
        },
{
    let end = find_head_end(input);
    let big = input.len() > MAX_HEADER;
    let p = match end {
        None => {
            if big {
                return Some(reply(HttpStatus::HeaderTooLarge, &[], false));
            }
            return None;
        },
        Some(p) => p,
    };
    proof {
        let p2 = choose|p2: int| head_end(input@, p2);
        assert(p2 == p) by {
            if p2 < p {
                assert(input@.subrange(p2, p2 + 4) != seq![13u8, 10u8, 13u8, 10u8]);
            } else if p2 > p {
                assert(input@.subrange(p as int, p + 4) != seq![13u8, 10u8, 13u8, 10u8]);
            }
        }
    }
    if big && p + 4 > MAX_HEADER {
        return Some(reply(HttpStatus::HeaderTooLarge, &[], false));
    }
    let header = copy_range(input, 0, p);
    assert(header@ =~= input@.take(p as int));
    let text = match utf8_chars(header.as_slice()) {
        None => return Some(reply(HttpStatus::BadRequest, &[], false)),
        Some(t) => t,
    };
    let (st, head) = request_status_exec(&text);
    match st {
        HttpStatus::Success => Some(reply(st, body.as_bytes(), head)),
        HttpStatus::NotFound => Some(reply(st, &[], head)),
        _ => Some(reply(st, &[], false)),
    }
}

} // verus!
