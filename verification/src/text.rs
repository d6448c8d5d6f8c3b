//! Text helpers: conversions between strings and their UTF-8 bytes, and
//! decimal rendering of integers.
use vstd::prelude::*;
use vstd::string::StringExecFns;
use vstd::utf8::{decode_utf8, encode_utf8, valid_utf8};

use crate::coordinate::decimal;

verus! {

/// The text that lossy UTF-8 decoding produces from `bytes`: invalid
/// sequences become U+FFFD.
pub uninterp spec fn lossy_text(bytes: Seq<u8>) -> Seq<char>;

/// The text bytes read as: their decoding when they are valid UTF-8, the
/// lossy decoding otherwise.
pub open spec fn decoded_text(bytes: Seq<u8>) -> Seq<char> {
    if valid_utf8(bytes) {
        decode_utf8(bytes)
    } else {
        lossy_text(bytes)
    }
}

/// Decodes bytes with `String::from_utf8_lossy`. Claimed: the result is
/// the named lossy decoding of the bytes, and equals the plain decoding
/// when the bytes are valid UTF-8 (the documented borrowed case).
#[verifier::external_body]
pub(crate) fn utf8_lossy(bytes: &[u8]) -> (s: String)
    ensures
        s@ == lossy_text(bytes@),
        valid_utf8(bytes@) ==> s@ == decode_utf8(bytes@),
{
    String::from_utf8_lossy(bytes).into_owned()
}

/// Converts bytes with `String::from_utf8`. Claimed: `Some` exactly when
/// the bytes are valid UTF-8, holding the decoded text.
#[verifier::external_body]
fn string_from_utf8(bytes: Vec<u8>) -> (s: Option<String>)
    ensures
        s is Some <==> valid_utf8(bytes@),
        s matches Some(t) ==> t@ == decode_utf8(bytes@),
{
    String::from_utf8(bytes).ok()
}

/// Views bytes as text with `std::str::from_utf8`. Claimed: `Some` exactly
/// when the bytes are valid UTF-8, holding the decoded text.
#[verifier::external_body]
pub(crate) fn str_from_utf8(bytes: &[u8]) -> (s: Option<&str>)
    ensures
        s is Some <==> valid_utf8(bytes@),
        s matches Some(t) ==> t@ == decode_utf8(bytes@),
{
    std::str::from_utf8(bytes).ok()
}

/// The string whose UTF-8 encoding is `bytes`.
pub fn string_of_bytes(bytes: Vec<u8>) -> (s: String)
    requires
        valid_utf8(bytes@),
    ensures
        encode_utf8(s@) == bytes@,
{
    let ghost b = bytes@;
    match string_from_utf8(bytes) {
        Some(t) => {
            proof {
                vstd::utf8::decode_utf8_encode_utf8(b);
            }
            t
        },
        None => {
            assert(false);
            String::new()
        },
    }
}

/// Bytes below 0x80 (ASCII) only.
pub open spec fn all_ascii(b: Seq<u8>) -> bool {
    forall|i: int| 0 <= i < b.len() ==> #[trigger] b[i] < 0x80
}

/// ASCII bytes are valid UTF-8.
pub proof fn lemma_ascii_valid(b: Seq<u8>)
    requires
        all_ascii(b),
    ensures
        valid_utf8(b),
    decreases b.len(),
{
    if b.len() > 0 {
        reveal_with_fuel(vstd::utf8::valid_utf8, 2);
        let rest = b.drop_first();
        lemma_ascii_valid(rest);
        assert(vstd::utf8::pop_first_scalar(b) =~= rest);
    }
}

/// Decimal digits are ASCII.
pub proof fn lemma_decimal_ascii(n: nat)
    ensures
        all_ascii(decimal(n)),
        decimal(n).len() >= 1,
    decreases n,
{
    if n >= 10 {
        lemma_decimal_ascii(n / 10);
    }
}

/// Appends the decimal digits of `n`.
pub fn push_decimal(out: &mut Vec<u8>, n: usize)
    ensures
        final(out)@ == old(out)@ + decimal(n as nat),
    decreases n,
{
    if n >= 10 {
        push_decimal(out, n / 10);
    }
    let d = (n % 10) as u8;
    out.push(d + 48);
    proof {
        if n >= 10 {
            assert(decimal(n as nat) == decimal((n / 10) as nat).push(((n % 10) + 48) as u8));
        }
    }
    assert(final(out)@ =~= old(out)@ + decimal(n as nat));
}

/// Appends the UTF-8 bytes of `s`.
pub fn push_str_bytes(out: &mut Vec<u8>, s: &str)
    ensures
        final(out)@ == old(out)@ + encode_utf8(s@),
{
    let b = s.as_bytes();
    let mut i: usize = 0;
    let ghost start = out@;
    while i < b.len()
        invariant
            0 <= i <= b@.len(),
            b@ == encode_utf8(s@),
            out@ == start + b@.take(i as int),
        decreases b@.len() - i,
    {
        out.push(b[i]);
        assert(b@.take(i + 1) =~= b@.take(i as int).push(b@[i as int]));
        i = i + 1;
    }
    assert(b@.take(b@.len() as int) =~= b@);
}

/// Appends a byte slice.
pub fn push_bytes(out: &mut Vec<u8>, b: &[u8])
    ensures
        final(out)@ == old(out)@ + b@,
{
    let mut i: usize = 0;
    let ghost start = out@;
    while i < b.len()
        invariant
            0 <= i <= b@.len(),
            out@ == start + b@.take(i as int),
        decreases b@.len() - i,
    {
        out.push(b[i]);
        assert(b@.take(i + 1) =~= b@.take(i as int).push(b@[i as int]));
        i = i + 1;
    }
    assert(b@.take(b@.len() as int) =~= b@);
}


/// Whether `b` continues a multi-byte UTF-8 character.
pub open spec fn is_continuation(b: u8) -> bool {
    0x80 <= b < 0xC0
}

/// Whether `b` is ASCII whitespace: space, tab, line feed, form feed or
/// carriage return.
pub open spec fn is_ascii_ws(b: u8) -> bool {
    b == 0x20 || b == 0x09 || b == 0x0A || b == 0x0C || b == 0x0D
}

/// Exec test for ASCII whitespace.
pub fn ascii_whitespace(b: u8) -> (r: bool)
    ensures
        r == is_ascii_ws(b),
{
    b == 0x20 || b == 0x09 || b == 0x0A || b == 0x0C || b == 0x0D
}

/// Number of characters that start in `b`: the bytes that are not
/// continuation bytes.
pub open spec fn char_starts(b: Seq<u8>) -> nat
    decreases b.len(),
{
    if b.len() == 0 {
        0
    } else if is_continuation(b.last()) {
        char_starts(b.drop_last())
    } else {
        char_starts(b.drop_last()) + 1
    }
}

/// Counts the characters that start in `b[start..end]`.
pub fn count_char_starts(b: &[u8], start: usize, end: usize) -> (r: usize)
    requires
        start <= end <= b@.len(),
    ensures
        r == char_starts(b@.subrange(start as int, end as int)),
{
    let mut count: usize = 0;
    let mut i: usize = start;
    while i < end
        invariant
            start <= i <= end <= b@.len(),
            count == char_starts(b@.subrange(start as int, i as int)),
            count <= i - start,
        decreases end - i,
    {
        let ghost p = b@.subrange(start as int, i + 1);
        assert(p.drop_last() =~= b@.subrange(start as int, i as int));
        if !(0x80 <= b[i] && b[i] < 0xC0) {
            count = count + 1;
        }
        i = i + 1;
    }
    count
}

/// The (line, column) reached after reading `b[0..n]`: a line feed starts
/// a new line, every other character start moves one column right.
pub open spec fn position_at(b: Seq<u8>, n: nat) -> (nat, nat)
    decreases n,
{
    if n == 0 {
        (0, 0)
    } else {
        let p = position_at(b, (n - 1) as nat);
        if b[n - 1] == 0x0A {
            (p.0 + 1, 0)
        } else if is_continuation(b[n - 1]) {
            p
        } else {
            (p.0, p.1 + 1)
        }
    }
}

/// Line and column never exceed the number of bytes read.
pub proof fn lemma_position_bounded(b: Seq<u8>, n: nat)
    ensures
        position_at(b, n).0 <= n,
        position_at(b, n).1 <= n,
    decreases n,
{
    if n > 0 {
        lemma_position_bounded(b, (n - 1) as nat);
    }
}

/// Where the line containing position `n` starts: just after the last line
/// feed in `b[0..n]`, or 0.
pub open spec fn line_start(b: Seq<u8>, n: nat) -> nat
    decreases n,
{
    if n == 0 {
        0
    } else if b[n - 1] == 0x0A {
        n
    } else {
        line_start(b, (n - 1) as nat)
    }
}

/// The lines ended by a line feed within `b[0..n]`, as byte ranges without
/// the terminator (a carriage return before the line feed is dropped too).
pub open spec fn closed_lines(b: Seq<u8>, n: nat) -> Seq<(nat, nat)>
    decreases n,
{
    if n == 0 {
        seq![]
    } else {
        let prev = closed_lines(b, (n - 1) as nat);
        if b[n - 1] == 0x0A {
            let s = line_start(b, (n - 1) as nat);
            let e = (n - 1) as nat;
            let e2 = if e > s && b[e - 1] == 0x0D {
                (e - 1) as nat
            } else {
                e
            };
            prev.push((s, e2))
        } else {
            prev
        }
    }
}

/// The lines of `b` as `str::lines` gives them: split at line feeds, a
/// carriage return before a line feed dropped, and no empty line after a
/// final line feed.
pub open spec fn lines_of(b: Seq<u8>) -> Seq<(nat, nat)> {
    let s = line_start(b, b.len());
    if s < b.len() {
        closed_lines(b, b.len()).push((s, b.len()))
    } else {
        closed_lines(b, b.len())
    }
}

/// The line start never passes the position.
pub proof fn lemma_line_start_le(b: Seq<u8>, n: nat)
    ensures
        line_start(b, n) <= n,
    decreases n,
{
    if n > 0 {
        lemma_line_start_le(b, (n - 1) as nat);
    }
}

/// Whether `b[s..e]` is a range whose ends touch only ASCII bytes (or the
/// ends of `b`).
pub open spec fn ascii_bounded(b: Seq<u8>, s: int, e: int) -> bool {
    &&& 0 <= s <= e <= b.len()
    &&& (s == 0 || b[s - 1] < 0x80)
    &&& (e == b.len() || b[e] < 0x80)
}

/// A line starts at the beginning or just after a line feed.
pub proof fn lemma_line_start_after_feed(b: Seq<u8>, n: nat)
    requires
        n <= b.len(),
    ensures
        line_start(b, n) <= n,
        line_start(b, n) == 0 || b[line_start(b, n) - 1] == 0x0A,
    decreases n,
{
    if n > 0 && b[n - 1] != 0x0A {
        lemma_line_start_after_feed(b, (n - 1) as nat);
    }
}

/// Each closed line lies before `n` and is bounded by ASCII bytes.
pub proof fn lemma_closed_lines_bounded(b: Seq<u8>, n: nat)
    requires
        n <= b.len(),
    ensures
        forall|k: int|
            0 <= k < closed_lines(b, n).len() ==> ascii_bounded(
                b,
                (#[trigger] closed_lines(b, n)[k]).0 as int,
                closed_lines(b, n)[k].1 as int,
            ) && closed_lines(b, n)[k].1 < n,
    decreases n,
{
    if n > 0 {
        let prev = closed_lines(b, (n - 1) as nat);
        lemma_closed_lines_bounded(b, (n - 1) as nat);
        if b[n - 1] == 0x0A {
            lemma_line_start_after_feed(b, (n - 1) as nat);
            let cl = closed_lines(b, n);
            assert forall|k: int| 0 <= k < cl.len() implies ascii_bounded(
                b,
                (#[trigger] cl[k]).0 as int,
                cl[k].1 as int,
            ) && cl[k].1 < n by {
                if k < prev.len() {
                    assert(cl[k] == prev[k]);
                }
            }
        } else {
            assert(closed_lines(b, n) == prev);
        }
    }
}

/// Each line of `b` is bounded by ASCII bytes.
pub proof fn lemma_lines_bounded(b: Seq<u8>)
    ensures
        forall|k: int|
            0 <= k < lines_of(b).len() ==> ascii_bounded(
                b,
                (#[trigger] lines_of(b)[k]).0 as int,
                lines_of(b)[k].1 as int,
            ),
{
    lemma_closed_lines_bounded(b, b.len());
    lemma_line_start_after_feed(b, b.len());
}

/// The byte ranges of the lines of `b`.
pub fn line_spans(b: &[u8]) -> (r: Vec<(usize, usize)>)
    ensures
        r@.len() == lines_of(b@).len(),
        forall|i: int|
            0 <= i < r@.len() ==> (#[trigger] r@[i]).0 as nat == lines_of(b@)[i].0 && r@[i].1 as nat
                == lines_of(b@)[i].1,
        forall|i: int| 0 <= i < r@.len() ==> (#[trigger] r@[i]).0 <= r@[i].1 <= b@.len(),
{
    let n = b.len();
    let mut out: Vec<(usize, usize)> = Vec::new();
    let mut start: usize = 0;
    let mut i: usize = 0;
    while i < n
        invariant
            0 <= i <= n,
            n == b@.len(),
            start as nat == line_start(b@, i as nat),
            start <= i,
            out@.len() == closed_lines(b@, i as nat).len(),
            forall|k: int|
                0 <= k < out@.len() ==> (#[trigger] out@[k]).0 as nat == closed_lines(b@, i as nat)[k].0
                    && out@[k].1 as nat == closed_lines(b@, i as nat)[k].1,
            forall|k: int| 0 <= k < out@.len() ==> (#[trigger] out@[k]).0 <= out@[k].1 <= i,
        decreases n - i,
    {
        if b[i] == 0x0A {
            let end = if i > start && b[i - 1] == 0x0D {
                i - 1
            } else {
                i
            };
            out.push((start, end));
            start = i + 1;
        }
        i = i + 1;
    }
    if start < n {
        out.push((start, n));
    }
    out
}


/// The value of a sequence of ASCII digits.
pub open spec fn digits_value(d: Seq<u8>) -> nat
    decreases d.len(),
{
    if d.len() == 0 {
        0
    } else {
        digits_value(d.drop_last()) * 10 + (d.last() - 48) as nat
    }
}

/// Whether every byte is an ASCII digit.
pub open spec fn all_digits(d: Seq<u8>) -> bool {
    forall|i: int| 0 <= i < d.len() ==> 48 <= #[trigger] d[i] <= 57
}

/// What `usize::from_str` gives for text `s`: an optional `+`, then one or
/// more ASCII digits whose value fits in a `usize`.
pub open spec fn parse_usize_spec(s: Seq<u8>) -> Option<usize> {
    let d = if s.len() > 0 && s[0] == 43 {
        s.drop_first()
    } else {
        s
    };
    if d.len() > 0 && all_digits(d) && digits_value(d) <= usize::MAX {
        Some(digits_value(d) as usize)
    } else {
        None
    }
}

/// Parses `b[start..end]` as `usize::from_str` would.
pub fn parse_usize(b: &[u8], start: usize, end: usize) -> (r: Option<usize>)
    requires
        start <= end <= b@.len(),
    ensures
        r == parse_usize_spec(b@.subrange(start as int, end as int)),
{
    let ghost s = b@.subrange(start as int, end as int);
    let mut i = start;
    if i < end && b[i] == 43 {
        i = i + 1;
    }
    let ghost d = b@.subrange(i as int, end as int);
    assert(d =~= (if s.len() > 0 && s[0] == 43 { s.drop_first() } else { s }));
    if i == end {
        return None;
    }
    let first = i;
    let mut value: usize = 0;
    while i < end
        invariant
            first <= i <= end <= b@.len(),
            d == b@.subrange(first as int, end as int),
            s == b@.subrange(start as int, end as int),
            d == (if s.len() > 0 && s[0] == 43 { s.drop_first() } else { s }),
            all_digits(b@.subrange(first as int, i as int)),
            value as nat == digits_value(b@.subrange(first as int, i as int)),
        decreases end - i,
    {
        let c = b[i];
        let ghost p = b@.subrange(first as int, i + 1);
        assert(p.drop_last() =~= b@.subrange(first as int, i as int));
        if c < 48 || c > 57 {
            assert(!all_digits(d)) by {
                assert(d[i - first] == c);
            }
            return None;
        }
        let digit = (c - 48) as usize;
        if value > (usize::MAX - digit) / 10 {
            proof {
                assert(value * 10 + digit > usize::MAX) by (nonlinear_arith)
                    requires
                        value > (usize::MAX - digit) / 10,
                        digit <= 9,
                ;
                if all_digits(d) {
                    lemma_digits_value_monotone(d, (i - first + 1) as int);
                    assert(p =~= d.take(i - first + 1));
                }
            }
            return None;
        }
        value = value * 10 + digit;
        i = i + 1;
    }
    assert(b@.subrange(first as int, i as int) =~= d);
    Some(value)
}

/// A longer digit string is worth at least its prefix.
pub proof fn lemma_digits_value_monotone(d: Seq<u8>, k: int)
    requires
        0 <= k <= d.len(),
        all_digits(d),
    ensures
        digits_value(d.take(k)) <= digits_value(d),
    decreases d.len() - k,
{
    if k < d.len() {
        lemma_digits_value_monotone(d, k + 1);
        assert(d.take(k + 1).drop_last() =~= d.take(k));
        assert(48 <= d[k] <= 57);
    } else {
        assert(d.take(k) =~= d);
    }
}

/// Whether `b[start..end]` begins with `p`.
pub open spec fn has_prefix(b: Seq<u8>, p: Seq<u8>) -> bool {
    p.len() <= b.len() && b.take(p.len() as int) == p
}

/// Whether `b[start..end]` begins with the bytes `p`.
pub fn starts_with(b: &[u8], start: usize, end: usize, p: &[u8]) -> (r: bool)
    requires
        start <= end <= b@.len(),
    ensures
        r == has_prefix(b@.subrange(start as int, end as int), p@),
{
    let ghost s = b@.subrange(start as int, end as int);
    if p.len() > end - start {
        return false;
    }
    let mut i: usize = 0;
    while i < p.len()
        invariant
            0 <= i <= p@.len() <= end - start,
            start <= end <= b@.len(),
            s == b@.subrange(start as int, end as int),
            forall|k: int| 0 <= k < i ==> b@[start + k] == p@[k],
        decreases p@.len() - i,
    {
        if b[start + i] != p[i] {
            assert(s[i as int] == b@[start + i]);
            assert(s.take(p@.len() as int)[i as int] != p@[i as int]);
            return false;
        }
        i = i + 1;
    }
    assert forall|k: int| 0 <= k < p@.len() implies s.take(p@.len() as int)[k] == p@[k] by {
        assert(s[k] == b@[start + k]);
    }
    assert(s.take(p@.len() as int) =~= p@);
    true
}

/// Whether `pat` occurs in `b` at position `i`.
pub open spec fn occurs_at(b: Seq<u8>, pat: Seq<u8>, i: int) -> bool {
    0 <= i && i + pat.len() <= b.len() && b.subrange(i, i + pat.len()) == pat
}

/// The first position at or after `from` where `pat` occurs in `b`.
pub open spec fn find_from(b: Seq<u8>, pat: Seq<u8>, from: nat) -> Option<nat>
    decreases b.len() + 1 - from,
{
    if from + pat.len() > b.len() {
        None
    } else if occurs_at(b, pat, from as int) {
        Some(from)
    } else {
        find_from(b, pat, from + 1)
    }
}

/// Finds the first occurrence of `pat` in `b` at or after `from`.
pub fn find_bytes(b: &[u8], pat: &[u8], from: usize) -> (r: Option<usize>)
    ensures
        match r {
            Some(i) => find_from(b@, pat@, from as nat) == Some(i as nat),
            None => find_from(b@, pat@, from as nat) is None,
        },
{
    let n = b.len();
    let m = pat.len();
    if m > n {
        proof {
            if from as nat + m > n {
            } else {
                assert(false);
            }
        }
        return None;
    }
    let mut i = from;
    while i <= n - m
        invariant
            from <= i,
            m <= n,
            n == b@.len(),
            m == pat@.len(),
            find_from(b@, pat@, from as nat) == find_from(b@, pat@, i as nat),
        decreases n - i,
    {
        let mut j: usize = 0;
        let mut ok = true;
        while j < m
            invariant
                0 <= j <= m,
                i + m <= n,
                n == b@.len(),
                m == pat@.len(),
                ok == forall|k: int| 0 <= k < j ==> b@[i + k] == pat@[k],
            decreases m - j,
        {
            if b[i + j] != pat[j] {
                ok = false;
            }
            j = j + 1;
        }
        if ok {
            assert(b@.subrange(i as int, i + m) =~= pat@);
            return Some(i);
        } else {
            proof {
                let k = choose|k: int| 0 <= k < m && b@[i + k] != pat@[k];
                assert(b@.subrange(i as int, i + m)[k] != pat@[k]);
            }
        }
        i = i + 1;
    }
    None
}

/// Exec helper: the first position of byte `c` in `b[start..end]`.
pub fn find_byte(b: &[u8], start: usize, end: usize, c: u8) -> (r: Option<usize>)
    requires
        start <= end <= b@.len(),
    ensures
        match r {
            Some(i) => start <= i < end && b@[i as int] == c && forall|k: int| start <= k < i ==> b@[k] != c,
            None => forall|k: int| start <= k < end ==> b@[k] != c,
        },
{
    let mut i = start;
    while i < end
        invariant
            start <= i <= end <= b@.len(),
            forall|k: int| start <= k < i ==> b@[k] != c,
        decreases end - i,
    {
        if b[i] == c {
            return Some(i);
        }
        i = i + 1;
    }
    None
}


/// Splitting valid UTF-8 around an ASCII byte leaves valid UTF-8 on both
/// sides.
pub proof fn lemma_split_at_ascii(b: Seq<u8>, i: int)
    requires
        valid_utf8(b),
        0 <= i < b.len(),
        b[i] < 0x80,
    ensures
        valid_utf8(b.take(i)),
        valid_utf8(b.skip(i + 1)),
        vstd::utf8::is_char_boundary(b, i),
{
    vstd::utf8::is_char_boundary_iff_not_is_continuation_byte(b, i);
    vstd::utf8::valid_utf8_split(b, i);
    assert(b.take(i) =~= b.subrange(0, i));
    let t = b.subrange(i, b.len() as int);
    assert(t[0] == b[i]);
    assert(vstd::utf8::pop_first_scalar(t) =~= b.skip(i + 1));
}

/// A range of valid UTF-8 bounded by ASCII bytes (or the ends) is valid.
pub proof fn lemma_valid_range(b: Seq<u8>, s: int, e: int)
    requires
        valid_utf8(b),
        0 <= s <= e <= b.len(),
        s == 0 || b[s - 1] < 0x80,
        e == b.len() || b[e] < 0x80,
    ensures
        valid_utf8(b.subrange(s, e)),
{
    let t = if s == 0 {
        b
    } else {
        lemma_split_at_ascii(b, s - 1);
        b.skip(s)
    };
    assert(t =~= b.skip(s));
    if e == b.len() {
        assert(b.subrange(s, e) =~= t);
    } else {
        assert(t[e - s] == b[e]);
        lemma_split_at_ascii(t, e - s);
        assert(b.subrange(s, e) =~= t.take(e - s));
    }
}

/// Appends the UTF-8 bytes of `s`, keeping the buffer valid UTF-8.
pub fn append_str(out: &mut Vec<u8>, s: &str)
    requires
        valid_utf8(old(out)@),
    ensures
        final(out)@ == old(out)@ + encode_utf8(s@),
        valid_utf8(final(out)@),
{
    push_str_bytes(out, s);
    proof {
        vstd::utf8::encode_utf8_valid_utf8(s@);
        vstd::utf8::valid_utf8_concat(old(out)@, encode_utf8(s@));
    }
}

/// Appends a decimal number, keeping the buffer valid UTF-8.
pub fn append_decimal(out: &mut Vec<u8>, n: usize)
    requires
        valid_utf8(old(out)@),
    ensures
        final(out)@ == old(out)@ + decimal(n as nat),
        valid_utf8(final(out)@),
{
    push_decimal(out, n);
    proof {
        lemma_decimal_ascii(n as nat);
        lemma_ascii_valid(decimal(n as nat));
        vstd::utf8::valid_utf8_concat(old(out)@, decimal(n as nat));
    }
}

/// Appends one ASCII byte, keeping the buffer valid UTF-8.
pub fn append_ascii(out: &mut Vec<u8>, c: u8)
    requires
        valid_utf8(old(out)@),
        c < 0x80,
    ensures
        final(out)@ == old(out)@.push(c),
        valid_utf8(final(out)@),
{
    out.push(c);
    proof {
        assert(all_ascii(seq![c]));
        lemma_ascii_valid(seq![c]);
        vstd::utf8::valid_utf8_concat(old(out)@, seq![c]);
        assert(old(out)@ + seq![c] =~= old(out)@.push(c));
    }
}

/// Appends valid UTF-8 bytes, keeping the buffer valid UTF-8.
pub fn append_valid(out: &mut Vec<u8>, b: &[u8])
    requires
        valid_utf8(old(out)@),
        valid_utf8(b@),
    ensures
        final(out)@ == old(out)@ + b@,
        valid_utf8(final(out)@),
{
    push_bytes(out, b);
    proof {
        vstd::utf8::valid_utf8_concat(old(out)@, b@);
    }
}

/// The empty byte sequence is valid UTF-8.
pub proof fn lemma_empty_valid()
    ensures
        valid_utf8(Seq::<u8>::empty()),
{
}


/// Appends ASCII bytes, keeping the buffer valid UTF-8.
pub fn append_lit(out: &mut Vec<u8>, lit: &[u8])
    requires
        valid_utf8(old(out)@),
        all_ascii(lit@),
    ensures
        final(out)@ == old(out)@ + lit@,
        valid_utf8(final(out)@),
{
    proof {
        lemma_ascii_valid(lit@);
    }
    append_valid(out, lit);
}

/// The string whose UTF-8 encoding is the valid bytes `b`.
pub fn string_from_valid(b: &[u8]) -> (s: String)
    requires
        valid_utf8(b@),
    ensures
        encode_utf8(s@) == b@,
{
    let mut v: Vec<u8> = Vec::new();
    push_bytes(&mut v, b);
    assert(v@ =~= b@);
    string_of_bytes(v)
}

/// Whether two byte strings are equal.
pub fn bytes_eq(a: &[u8], b: &[u8]) -> (r: bool)
    ensures
        r == (a@ == b@),
{
    if a.len() != b.len() {
        return false;
    }
    let r = starts_with(a, 0, a.len(), b);
    proof {
        assert(a@.subrange(0, a@.len() as int) =~= a@);
        if r {
            assert(a@.take(b@.len() as int) =~= a@);
        }
    }
    r
}

/// A found occurrence lies at or after the start and matches.
pub proof fn lemma_find_from_some(b: Seq<u8>, pat: Seq<u8>, from: nat)
    ensures
        find_from(b, pat, from) matches Some(i) ==> from <= i && occurs_at(b, pat, i as int),
        find_from(b, pat, from) matches Some(i) ==> forall|j: int|
            from <= j < i ==> !occurs_at(b, pat, j),
    decreases b.len() + 1 - from,
{
    if from + pat.len() <= b.len() && !occurs_at(b, pat, from as int) {
        lemma_find_from_some(b, pat, from + 1);
    }
}


/// The bytes between two character boundaries of valid UTF-8 are valid.
pub proof fn lemma_valid_between(b: Seq<u8>, s: int, e: int)
    requires
        valid_utf8(b),
        0 <= s <= e <= b.len(),
        vstd::utf8::is_char_boundary(b, s),
        vstd::utf8::is_char_boundary(b, e),
    ensures
        valid_utf8(b.subrange(s, e)),
{
    vstd::utf8::valid_utf8_split(b, s);
    let t = b.subrange(s, b.len() as int);
    if e < b.len() {
        vstd::utf8::is_char_boundary_iff_not_is_continuation_byte(b, e);
        vstd::utf8::is_char_boundary_iff_not_is_continuation_byte(t, e - s);
        assert(t[e - s] == b[e]);
    } else {
        vstd::utf8::is_char_boundary_start_end_of_seq(t);
    }
    vstd::utf8::valid_utf8_split(t, e - s);
    assert(t.subrange(0, e - s) =~= b.subrange(s, e));
}

/// The text between two character boundaries of `s`.
pub fn substring(s: &str, start: usize, end: usize) -> (r: String)
    requires
        start <= end <= encode_utf8(s@).len(),
        vstd::utf8::is_char_boundary(encode_utf8(s@), start as int),
        vstd::utf8::is_char_boundary(encode_utf8(s@), end as int),
    ensures
        encode_utf8(r@) == encode_utf8(s@).subrange(start as int, end as int),
{
    let b = s.as_bytes();
    proof {
        vstd::utf8::encode_utf8_valid_utf8(s@);
        lemma_valid_between(b@, start as int, end as int);
    }
    let part = slice_range(b, start, end);
    string_from_valid(part)
}

/// The bytes `b[start..end]`.
pub fn slice_range(b: &[u8], start: usize, end: usize) -> (r: &[u8])
    requires
        start <= end <= b@.len(),
    ensures
        r@ == b@.subrange(start as int, end as int),
{
    let (_, tail) = b.split_at(start);
    let (mid, _) = tail.split_at(end - start);
    assert(mid@ =~= b@.subrange(start as int, end as int));
    mid
}

/// Line ranges come in order, each within itself and the next one starting
/// after the byte that follows it.
pub proof fn lemma_lines_ordered(b: Seq<u8>, k: int)
    requires
        0 <= k < lines_of(b).len(),
    ensures
        lines_of(b)[k].0 <= lines_of(b)[k].1,
        k + 1 < lines_of(b).len() ==> lines_of(b)[k].1 + 1 <= lines_of(b)[k + 1].0,
{
    lemma_closed_lines_ordered(b, b.len());
    lemma_line_start_after_feed(b, b.len());
}

/// Closed lines come in order, and the last ends before the current line.
proof fn lemma_closed_lines_ordered(b: Seq<u8>, n: nat)
    requires
        n <= b.len(),
    ensures
        forall|k: int|
            0 <= k < closed_lines(b, n).len() ==> (#[trigger] closed_lines(b, n)[k]).0
                <= closed_lines(b, n)[k].1,
        forall|k: int|
            0 <= k < closed_lines(b, n).len() - 1 ==> (#[trigger] closed_lines(b, n)[k]).1 + 1
                <= closed_lines(b, n)[k + 1].0,
        closed_lines(b, n).len() > 0 ==> closed_lines(b, n).last().1 + 1 <= line_start(b, n),
    decreases n,
{
    if n > 0 {
        let prev = closed_lines(b, (n - 1) as nat);
        lemma_closed_lines_ordered(b, (n - 1) as nat);
        lemma_line_start_after_feed(b, (n - 1) as nat);
        if b[n - 1] == 0x0A {
            let cl = closed_lines(b, n);
            assert forall|k: int| 0 <= k < cl.len() - 1 implies (#[trigger] cl[k]).1 + 1 <= cl[k + 1].0 by {
                assert(cl[k] == prev[k]);
                if k + 1 < prev.len() {
                    assert(cl[k + 1] == prev[k + 1]);
                }
            }
            assert forall|k: int| 0 <= k < cl.len() implies (#[trigger] cl[k]).0 <= cl[k].1 by {
                if k < prev.len() {
                    assert(cl[k] == prev[k]);
                }
            }
        } else {
            assert(closed_lines(b, n) == prev);
        }
    }
}


/// A one-character string, made with `String::from(char)`. Claimed: the
/// string holds exactly that character.
#[verifier::external_body]
pub(crate) fn string_from_char(c: char) -> (r: String)
    ensures
        r@ == seq![c],
{
    String::from(c)
}

/// A string of the given characters, collected with `String::from_iter`.
/// Claimed: the string holds exactly those characters, in order.
#[verifier::external_body]
pub(crate) fn string_from_chars(cs: &[char]) -> (r: String)
    ensures
        r@ == cs@,
{
    String::from_iter(cs.iter())
}

/// Two strings joined: the characters of `a` followed by those of `b`.
pub(crate) fn concat_str(a: &str, b: &str) -> (r: String)
    ensures
        r@ == a@ + b@,
{
    let mut r = String::from_str(a);
    r.append(b);
    r
}


/// Unicode white space, as `char::is_whitespace` has it.
pub open spec fn is_white_space(c: char) -> bool {
    let u = c as u32;
    (0x09 <= u <= 0x0D) || u == 0x20 || u == 0x85 || u == 0xA0 || u == 0x1680 || (0x2000 <= u
        <= 0x200A) || u == 0x2028 || u == 0x2029 || u == 0x202F || u == 0x205F || u == 0x3000
}

/// Whether `c` is Unicode white space.
pub fn white_space(c: char) -> (r: bool)
    ensures
        r == is_white_space(c),
{
    let u = c as u32;
    (0x09 <= u && u <= 0x0D) || u == 0x20 || u == 0x85 || u == 0xA0 || u == 0x1680 || (0x2000 <= u
        && u <= 0x200A) || u == 0x2028 || u == 0x2029 || u == 0x202F || u == 0x205F || u == 0x3000
}

/// Encoding never makes text shorter: at least one byte per character.
pub proof fn lemma_encode_len(cs: Seq<char>)
    ensures
        encode_utf8(cs).len() >= cs.len(),
    decreases cs.len(),
{
    if cs.len() > 0 {
        lemma_encode_len(cs.drop_first());
    }
}

/// The digit character for `d < 10`.
pub open spec fn digit_char(d: nat) -> char {
    (48 + d) as char
}

/// The decimal digits of `n` as characters.
pub open spec fn dec_chars(n: nat) -> Seq<char>
    decreases n,
{
    if n < 10 {
        seq![digit_char(n)]
    } else {
        dec_chars(n / 10).push(digit_char(n % 10))
    }
}

/// Appends the characters of `s`.
pub fn push_chars(v: &mut Vec<char>, s: &str)
    ensures
        final(v)@ == old(v)@ + s@,
{
    let n = s.unicode_len();
    let mut i: usize = 0;
    let ghost start = v@;
    while i < n
        invariant
            0 <= i <= n,
            n == s@.len(),
            v@ == start + s@.take(i as int),
        decreases n - i,
    {
        v.push(s.get_char(i));
        assert(s@.take(i + 1) =~= s@.take(i as int).push(s@[i as int]));
        i = i + 1;
    }
    assert(s@.take(n as int) =~= s@);
}

/// Appends the decimal digits of `n`.
pub fn push_dec_chars(v: &mut Vec<char>, n: usize)
    ensures
        final(v)@ == old(v)@ + dec_chars(n as nat),
    decreases n,
{
    if n >= 10 {
        push_dec_chars(v, n / 10);
    }
    let d = (n % 10) as u8;
    v.push((48 + d) as char);
    assert(v@ =~= old(v)@ + dec_chars(n as nat));
}


/// The characters of `s`.
pub fn chars_vec(s: &str) -> (r: Vec<char>)
    ensures
        r@ == s@,
{
    broadcast use vstd::string::axiom_spec_iter, vstd::string::next_postcondition;

    let ghost all = s@;
    let blen = s.as_bytes().len();
    proof {
        lemma_encode_len(all);
    }
    let mut out: Vec<char> = Vec::new();
    let mut it = s.chars();
    loop
        invariant_except_break
            0 <= out@.len() <= all.len(),
            all.len() <= blen,
            vstd::std_specs::iter::IteratorSpec::remaining(&it) == all.skip(out@.len() as int),
            out@ == all.take(out@.len() as int),
            vstd::std_specs::iter::IteratorSpec::obeys_prophetic_iter_laws(&it),
        ensures
            out@ == all,
        decreases all.len() - out@.len(),
    {
        match it.next() {
            Some(c) => {
                let ghost k = out@.len() as int;
                assert(all.skip(k)[0] == all[k]);
                assert(all.skip(k).drop_first() =~= all.skip(k + 1));
                out.push(c);
                assert(out@ =~= all.take(k + 1));
            },
            None => {
                assert(all.take(out@.len() as int) =~= all);
                break;
            },
        }
    }
    out
}

/// The pieces of `s` between the separators `sep`, as `str::split` gives
/// them (an empty text is one empty piece).
pub open spec fn split_on(s: Seq<char>, sep: char) -> Seq<Seq<char>>
    decreases s.len(),
{
    if s.len() == 0 {
        seq![seq![]]
    } else {
        let p = split_on(s.drop_last(), sep);
        if s.last() == sep {
            p.push(seq![])
        } else {
            p.update(p.len() - 1, p.last().push(s.last()))
        }
    }
}

/// `split_on` always gives at least one piece.
pub proof fn lemma_split_nonempty(s: Seq<char>, sep: char)
    ensures
        split_on(s, sep).len() >= 1,
    decreases s.len(),
{
    if s.len() > 0 {
        lemma_split_nonempty(s.drop_last(), sep);
    }
}

/// Splits `s` at every `sep`.
pub fn split_chars(s: &[char], sep: char) -> (r: Vec<Vec<char>>)
    ensures
        r@.len() == split_on(s@, sep).len(),
        forall|i: int| 0 <= i < r@.len() ==> (#[trigger] r@[i])@ == split_on(s@, sep)[i],
{
    let mut pieces: Vec<Vec<char>> = Vec::new();
    let mut cur: Vec<char> = Vec::new();
    let mut k: usize = 0;
    assert(s@.take(0) =~= Seq::<char>::empty());
    while k < s.len()
        invariant
            0 <= k <= s@.len(),
            pieces@.len() + 1 == split_on(s@.take(k as int), sep).len(),
            forall|i: int| 0 <= i < pieces@.len() ==> (#[trigger] pieces@[i])@ == split_on(s@.take(k as int), sep)[i],
            cur@ == split_on(s@.take(k as int), sep).last(),
        decreases s@.len() - k,
    {
        proof {
            lemma_split_nonempty(s@.take(k as int), sep);
        }
        let c = s[k];
        let ghost t = s@.take(k + 1);
        assert(t.drop_last() =~= s@.take(k as int));
        assert(t.last() == c);
        if c == sep {
            pieces.push(cur);
            cur = Vec::new();
            assert(cur@ =~= Seq::<char>::empty());
        } else {
            cur.push(c);
        }
        k = k + 1;
    }
    assert(s@.take(k as int) =~= s@);
    pieces.push(cur);
    proof {
        lemma_split_nonempty(s@, sep);
    }
    pieces
}

/// The value of a sequence of ASCII digit characters.
pub open spec fn char_digits_value(d: Seq<char>) -> nat
    decreases d.len(),
{
    if d.len() == 0 {
        0
    } else {
        char_digits_value(d.drop_last()) * 10 + (d.last() as nat - 48) as nat
    }
}

/// Whether every character is an ASCII digit.
pub open spec fn all_digit_chars(d: Seq<char>) -> bool {
    forall|i: int| 0 <= i < d.len() ==> '0' <= #[trigger] d[i] <= '9'
}

/// What `u32::from_str` gives for `s`: an optional `+`, then one or more
/// ASCII digits whose value fits in a `u32`.
pub open spec fn parse_u32_spec(s: Seq<char>) -> Option<u32> {
    let d = if s.len() > 0 && s[0] == '+' {
        s.drop_first()
    } else {
        s
    };
    if d.len() > 0 && all_digit_chars(d) && char_digits_value(d) <= u32::MAX {
        Some(char_digits_value(d) as u32)
    } else {
        None
    }
}

/// A longer digit string is worth at least its prefix.
proof fn lemma_char_digits_monotone(d: Seq<char>, k: int)
    requires
        0 <= k <= d.len(),
        all_digit_chars(d),
    ensures
        char_digits_value(d.take(k)) <= char_digits_value(d),
    decreases d.len() - k,
{
    if k < d.len() {
        lemma_char_digits_monotone(d, k + 1);
        assert(d.take(k + 1).drop_last() =~= d.take(k));
        assert('0' <= d[k] <= '9');
    } else {
        assert(d.take(k) =~= d);
    }
}

/// Parses characters as `u32::from_str` would.
pub fn parse_u32(s: &[char]) -> (r: Option<u32>)
    ensures
        r == parse_u32_spec(s@),
{
    let n = s.len();
    let mut i: usize = 0;
    if i < n && s[i] == '+' {
        i = 1;
    }
    let ghost d = s@.subrange(i as int, n as int);
    assert(d =~= (if s@.len() > 0 && s@[0] == '+' { s@.drop_first() } else { s@ }));
    if i == n {
        return None;
    }
    let first = i;
    let mut value: u32 = 0;
    while i < n
        invariant
            first <= i <= n,
            n == s@.len(),
            d == s@.subrange(first as int, n as int),
            d == (if s@.len() > 0 && s@[0] == '+' { s@.drop_first() } else { s@ }),
            all_digit_chars(s@.subrange(first as int, i as int)),
            value as nat == char_digits_value(s@.subrange(first as int, i as int)),
        decreases n - i,
    {
        let c = s[i];
        let ghost p = s@.subrange(first as int, i + 1);
        assert(p.drop_last() =~= s@.subrange(first as int, i as int));
        if c < '0' || c > '9' {
            assert(!all_digit_chars(d)) by {
                assert(d[i - first] == c);
            }
            return None;
        }
        let digit = (c as u32) - 48;
        if value > (u32::MAX - digit) / 10 {
            proof {
                assert(value * 10 + digit > u32::MAX) by (nonlinear_arith)
                    requires
                        value > (u32::MAX - digit) / 10,
                        digit <= 9,
                ;
                if all_digit_chars(d) {
                    lemma_char_digits_monotone(d, (i - first + 1) as int);
                    assert(p =~= d.take(i - first + 1));
                }
            }
            return None;
        }
        value = value * 10 + digit;
        i = i + 1;
    }
    assert(s@.subrange(first as int, i as int) =~= d);
    Some(value)
}

/// `s` without leading white space.
pub open spec fn trim_start(s: Seq<char>) -> Seq<char>
    decreases s.len(),
{
    if s.len() > 0 && is_white_space(s[0]) {
        trim_start(s.drop_first())
    } else {
        s
    }
}

/// `s` without trailing white space.
pub open spec fn trim_end(s: Seq<char>) -> Seq<char>
    decreases s.len(),
{
    if s.len() > 0 && is_white_space(s.last()) {
        trim_end(s.drop_last())
    } else {
        s
    }
}

/// The range of `cmd` left after trimming white space at both ends.
pub fn trimmed_range(cmd: &[char]) -> (r: (usize, usize))
    ensures
        r.0 <= r.1 <= cmd@.len(),
        cmd@.subrange(r.0 as int, r.1 as int) == trim_end(trim_start(cmd@)),
{
    let n = cmd.len();
    let mut s: usize = 0;
    assert(cmd@.subrange(0, n as int) =~= cmd@);
    while s < n && white_space(cmd[s])
        invariant
            0 <= s <= n,
            n == cmd@.len(),
            trim_start(cmd@) == trim_start(cmd@.subrange(s as int, n as int)),
        decreases n - s,
    {
        assert(cmd@.subrange(s as int, n as int).drop_first() =~= cmd@.subrange(s + 1, n as int));
        s = s + 1;
    }
    assert(trim_start(cmd@) == cmd@.subrange(s as int, n as int)) by {
        if s < n {
            assert(cmd@.subrange(s as int, n as int)[0] == cmd@[s as int]);
        }
    }
    let mut e: usize = n;
    while e > s && white_space(cmd[e - 1])
        invariant
            s <= e <= n,
            n == cmd@.len(),
            trim_end(trim_start(cmd@)) == trim_end(cmd@.subrange(s as int, e as int)),
        decreases e - s,
    {
        assert(cmd@.subrange(s as int, e as int).drop_last() =~= cmd@.subrange(s as int, e - 1));
        e = e - 1;
    }
    assert(trim_end(trim_start(cmd@)) == cmd@.subrange(s as int, e as int)) by {
        if e > s {
            assert(cmd@.subrange(s as int, e as int).last() == cmd@[e - 1]);
        }
    }
    (s, e)
}



/// Whether `cmd[s..e]` holds exactly the characters of `lit`.
pub fn chars_eq(cmd: &[char], s: usize, e: usize, lit: &str) -> (r: bool)
    requires
        s <= e <= cmd@.len(),
    ensures
        r == (cmd@.subrange(s as int, e as int) == lit@),
{
    let n = lit.unicode_len();
    if e - s != n {
        return false;
    }
    let mut i: usize = 0;
    while i < n
        invariant
            0 <= i <= n,
            n == lit@.len(),
            e - s == n,
            s <= e <= cmd@.len(),
            forall|k: int| 0 <= k < i ==> cmd@[s + k] == lit@[k],
        decreases n - i,
    {
        if cmd[s + i] != lit.get_char(i) {
            assert(cmd@.subrange(s as int, e as int)[i as int] != lit@[i as int]);
            return false;
        }
        i = i + 1;
    }
    assert(cmd@.subrange(s as int, e as int) =~= lit@);
    true
}

/// What `usize::from_str` gives for `s`: an optional `+`, then one or more
/// ASCII digits whose value fits in a `usize`.
pub open spec fn parse_usize_chars_spec(s: Seq<char>) -> Option<usize> {
    let d = if s.len() > 0 && s[0] == '+' {
        s.drop_first()
    } else {
        s
    };
    if d.len() > 0 && all_digit_chars(d) && char_digits_value(d) <= usize::MAX {
        Some(char_digits_value(d) as usize)
    } else {
        None
    }
}

/// Parses characters as `usize::from_str` would.
pub fn parse_usize_chars(s: &[char]) -> (r: Option<usize>)
    ensures
        r == parse_usize_chars_spec(s@),
{
    let n = s.len();
    let mut i: usize = 0;
    if i < n && s[i] == '+' {
        i = 1;
    }
    let ghost d = s@.subrange(i as int, n as int);
    assert(d =~= (if s@.len() > 0 && s@[0] == '+' { s@.drop_first() } else { s@ }));
    if i == n {
        return None;
    }
    let first = i;
    let mut value: usize = 0;
    while i < n
        invariant
            first <= i <= n,
            n == s@.len(),
            d == s@.subrange(first as int, n as int),
            d == (if s@.len() > 0 && s@[0] == '+' { s@.drop_first() } else { s@ }),
            all_digit_chars(s@.subrange(first as int, i as int)),
            value as nat == char_digits_value(s@.subrange(first as int, i as int)),
        decreases n - i,
    {
        let c = s[i];
        let ghost p = s@.subrange(first as int, i + 1);
        assert(p.drop_last() =~= s@.subrange(first as int, i as int));
        if c < '0' || c > '9' {
            assert(!all_digit_chars(d)) by {
                assert(d[i - first] == c);
            }
            return None;
        }
        let digit = (c as u32 - 48) as usize;
        if value > (usize::MAX - digit) / 10 {
            proof {
                assert(value * 10 + digit > usize::MAX) by (nonlinear_arith)
                    requires
                        value > (usize::MAX - digit) / 10,
                        digit <= 9,
                ;
                if all_digit_chars(d) {
                    lemma_char_digits_monotone(d, (i - first + 1) as int);
                    assert(p =~= d.take(i - first + 1));
                }
            }
            return None;
        }
        value = value * 10 + digit;
        i = i + 1;
    }
    assert(s@.subrange(first as int, i as int) =~= d);
    Some(value)
}

/// The characters `s[start..end]`.
pub fn slice_range_chars(s: &[char], start: usize, end: usize) -> (r: &[char])
    requires
        start <= end <= s@.len(),
    ensures
        r@ == s@.subrange(start as int, end as int),
{
    let (_, tail) = s.split_at(start);
    let (mid, _) = tail.split_at(end - start);
    assert(mid@ =~= s@.subrange(start as int, end as int));
    mid
}

} // verus!
