//! Search across the lattice. A search answers with coordinates, not only
//! byte offsets: in phext, where text lives is part of what it means.
use vstd::prelude::*;
use vstd::utf8::{decode_utf8, encode_utf8, is_char_boundary, valid_utf8};

use crate::coordinate::{coordinate_text, decimal, Coordinate};
use crate::index::{coords_of, index_entries, lookup, LatticeIndex, ScrollSpan};
use crate::text::{
    chars_vec, find_bytes, find_from, has_prefix, is_continuation, lemma_find_from_some, push_decimal, slice_range, starts_with,
    str_from_utf8, string_from_chars, trim_end, trim_start, trimmed_range,
};

verus! {

/// A match: where it is and the text around it.
#[derive(Debug, Clone)]
pub struct SearchHit {
    /// The scroll holding the match.
    pub coordinate: Coordinate,
    /// Byte offset of the match within the scroll.
    pub offset: usize,
    /// Length of the pattern, in bytes.
    pub length: usize,
    /// Up to forty characters on each side of the match, with `…` where
    /// the scroll goes on.
    pub context: String,
}

/// The characters of context kept on each side of a match.
pub const CONTEXT_RADIUS: usize = 40;

/// The text that lowercasing `s` gives, as `str::to_lowercase` defines it.
pub uninterp spec fn lowercase_text(s: Seq<char>) -> Seq<char>;

/// Lowercases with `str::to_lowercase`. Claimed: the result is the named
/// lowercasing of the text (a function of the text alone).
#[verifier::external_body]
fn lowercase(s: &str) -> (r: String)
    ensures
        r@ == lowercase_text(s@),
{
    s.to_lowercase()
}

/// Where the `k+1`-th character before position `i` starts, counting
/// back; 0 when there are not that many.
pub open spec fn start_back(b: Seq<u8>, i: int, k: nat) -> int
    decreases i,
{
    if i <= 0 {
        0
    } else if !is_continuation(b[i - 1]) {
        if k == 0 {
            i - 1
        } else {
            start_back(b, i - 1, (k - 1) as nat)
        }
    } else {
        start_back(b, i - 1, k)
    }
}

/// Where the `k+1`-th character from position `i` on starts; the length
/// when there are not that many.
pub open spec fn start_forward(b: Seq<u8>, i: int, k: nat) -> int
    decreases b.len() - i,
{
    if i >= b.len() {
        b.len() as int
    } else if !is_continuation(b[i]) {
        if k == 0 {
            i
        } else {
            start_forward(b, i + 1, (k - 1) as nat)
        }
    } else {
        start_forward(b, i + 1, k)
    }
}

/// The UTF-8 bytes of `…`.
pub open spec fn ellipsis() -> Seq<u8> {
    encode_utf8("…"@)
}

/// The context of a match at `p` of length `len` in text `b`: forty
/// characters each side, marked with `…` where the text goes on.
pub open spec fn context_bytes(b: Seq<u8>, p: int, len: int) -> Seq<u8> {
    let s = start_back(b, p, CONTEXT_RADIUS as nat);
    let e = start_forward(b, p + len, CONTEXT_RADIUS as nat);
    (if s > 0 {
        ellipsis()
    } else {
        seq![]
    }) + b.subrange(s, e) + if e < b.len() {
        ellipsis()
    } else {
        seq![]
    }
}

/// The positions a scan of `hay` for `needle` visits: from `start`, each
/// match, the next scan resuming `step` bytes after the match; at most
/// `limit` of them.
pub open spec fn scan_positions(hay: Seq<u8>, needle: Seq<u8>, start: nat, step: nat, limit: nat) -> Seq<nat>
    decreases limit,
{
    if limit == 0 {
        seq![]
    } else {
        match find_from(hay, needle, start) {
            None => seq![],
            Some(p) => seq![p] + scan_positions(hay, needle, p + step, step, (limit - 1) as nat),
        }
    }
}

/// Whether the scan can slice the texts where it needs to: each match and
/// its end are character boundaries of `content` within it, and where the
/// scan goes on (fewer than `limit` matches so far), the resumption point
/// is a boundary of `hay` within it.
pub open spec fn scan_fits(content: Seq<u8>, hay: Seq<u8>, ps: Seq<nat>, step: nat, limit: nat) -> bool {
    forall|i: int|
        0 <= i < ps.len() ==> {
            let p = #[trigger] ps[i];
            &&& p + step <= content.len()
            &&& is_char_boundary(content, p as int)
            &&& is_char_boundary(content, (p + step) as int)
            &&& (i + 1 < limit ==> p + step <= hay.len() && is_char_boundary(hay, (p + step) as int))
        }
}

/// The most matches a scroll search collects: `max`, but at least one (the
/// first match is taken before the limit is checked).
pub open spec fn scan_limit(max: usize) -> nat {
    if max == 0 {
        1
    } else {
        max as nat
    }
}

/// What searching a scroll's valid text `content` gives, with `hay` the
/// text searched (the content or its lowercasing) and `needle` the pattern
/// searched for: the hits, or nothing when the positions do not line up
/// with the content.
pub open spec fn scroll_search(coord: Coordinate, content: Seq<u8>, hay: Seq<u8>, needle: Seq<u8>, step: nat, max: usize) -> Option<
    Seq<(Coordinate, usize, usize, Seq<u8>)>,
> {
    let ps = scan_positions(hay, needle, 0, step, scan_limit(max));
    if scan_fits(content, hay, ps, step, scan_limit(max)) {
        Some(hits_at(coord, content, ps, step))
    } else {
        None
    }
}

/// The hits for the positions of a scan.
pub open spec fn hits_at(coord: Coordinate, content: Seq<u8>, ps: Seq<nat>, step: nat) -> Seq<(Coordinate, usize, usize, Seq<u8>)> {
    ps.map_values(|p: nat| (coord, p as usize, step as usize, context_bytes(content, p as int, step as int)))
}

/// A hit as plain values: coordinate, offset, length and context bytes.
pub open spec fn hit_view(h: SearchHit) -> (Coordinate, usize, usize, Seq<u8>) {
    (h.coordinate, h.offset, h.length, encode_utf8(h.context@))
}

/// Hits as plain values.
pub open spec fn hits_view(hs: Seq<SearchHit>) -> Seq<(Coordinate, usize, usize, Seq<u8>)> {
    hs.map_values(|h: SearchHit| hit_view(h))
}

/// The start of the character that has `CONTEXT_RADIUS` characters after
/// it before `p`.
fn context_start(b: &[u8], p: usize) -> (r: usize)
    requires
        p <= b@.len(),
    ensures
        r as int == start_back(b@, p as int, CONTEXT_RADIUS as nat),
        r <= p,
{
    let mut i = p;
    let mut k: usize = CONTEXT_RADIUS;
    while i > 0
        invariant
            0 <= i <= p <= b@.len(),
            k <= CONTEXT_RADIUS,
            start_back(b@, p as int, CONTEXT_RADIUS as nat) == start_back(b@, i as int, k as nat),
        decreases i,
    {
        if b[i - 1] < 0x80 || b[i - 1] >= 0xC0 {
            if k == 0 {
                return i - 1;
            }
            k = k - 1;
        }
        i = i - 1;
    }
    0
}

/// The start of the character `CONTEXT_RADIUS` characters on from `q`, or
/// the length.
fn context_end(b: &[u8], q: usize) -> (r: usize)
    requires
        q <= b@.len(),
    ensures
        r as int == start_forward(b@, q as int, CONTEXT_RADIUS as nat),
        q <= r <= b@.len(),
{
    let n = b.len();
    let mut i = q;
    let mut k: usize = CONTEXT_RADIUS;
    while i < n
        invariant
            q <= i <= n,
            n == b@.len(),
            k <= CONTEXT_RADIUS,
            start_forward(b@, q as int, CONTEXT_RADIUS as nat) == start_forward(b@, i as int, k as nat),
        decreases n - i,
    {
        if b[i] < 0x80 || b[i] >= 0xC0 {
            if k == 0 {
                return i;
            }
            k = k - 1;
        }
        i = i + 1;
    }
    n
}

/// A position `start_back` finds is a character start.
proof fn lemma_start_back(b: Seq<u8>, i: int, k: nat)
    requires
        0 <= i <= b.len(),
    ensures
        0 <= start_back(b, i, k) <= i,
        start_back(b, i, k) == 0 || start_back(b, i, k) < i,
        start_back(b, i, k) == 0 || !is_continuation(b[start_back(b, i, k)]),
    decreases i,
{
    if i > 0 {
        if !is_continuation(b[i - 1]) {
            if k > 0 {
                lemma_start_back(b, i - 1, (k - 1) as nat);
            }
        } else {
            lemma_start_back(b, i - 1, k);
        }
    }
}

/// A position `start_forward` finds is a character start or the end.
proof fn lemma_start_forward(b: Seq<u8>, i: int, k: nat)
    requires
        0 <= i <= b.len(),
    ensures
        i <= start_forward(b, i, k) <= b.len(),
        start_forward(b, i, k) == b.len() || !is_continuation(b[start_forward(b, i, k)]),
    decreases b.len() - i,
{
    if i < b.len() {
        if !is_continuation(b[i]) {
            if k > 0 {
                lemma_start_forward(b, i + 1, (k - 1) as nat);
            }
        } else {
            lemma_start_forward(b, i + 1, k);
        }
    }
}

/// The context string of a match at `p` of length `len`.
fn context_of(content: &[u8], p: usize, len: usize) -> (r: String)
    requires
        valid_utf8(content@),
        p + len <= content@.len(),
    ensures
        encode_utf8(r@) == context_bytes(content@, p as int, len as int),
{
    let n = content.len();
    let s = context_start(content, p);
    let e = context_end(content, p + len);
    proof {
        lemma_start_back(content@, p as int, CONTEXT_RADIUS as nat);
        lemma_start_forward(content@, (p + len) as int, CONTEXT_RADIUS as nat);
        if s > 0 {
            vstd::utf8::is_char_boundary_iff_not_is_continuation_byte(content@, s as int);
        } else {
            vstd::utf8::is_char_boundary_start_end_of_seq(content@);
        }
        if e < content@.len() {
            vstd::utf8::is_char_boundary_iff_not_is_continuation_byte(content@, e as int);
        } else {
            vstd::utf8::is_char_boundary_start_end_of_seq(content@);
        }
        crate::text::lemma_valid_between(content@, s as int, e as int);
    }
    let mut out: Vec<u8> = Vec::new();
    proof {
        crate::text::lemma_empty_valid();
        assert(out@ =~= Seq::<u8>::empty());
    }
    if s > 0 {
        crate::text::append_str(&mut out, "…");
    }
    crate::text::append_valid(&mut out, slice_range(content, s, e));
    if e < n {
        crate::text::append_str(&mut out, "…");
    }
    assert(out@ =~= context_bytes(content@, p as int, len as int));
    crate::text::string_of_bytes(out)
}


/// Whether byte `i` of valid UTF-8 `b` is a character boundary.
fn char_boundary(b: &[u8], i: usize) -> (r: bool)
    requires
        valid_utf8(b@),
        i <= b@.len(),
    ensures
        r == is_char_boundary(b@, i as int),
{
    proof {
        vstd::utf8::is_char_boundary_start_end_of_seq(b@);
    }
    if i == b.len() {
        return true;
    }
    proof {
        vstd::utf8::is_char_boundary_iff_not_is_continuation_byte(b@, i as int);
    }
    b[i] < 0x80 || b[i] >= 0xC0
}

/// Scans valid text `content` for `needle` in `hay` (the content or its
/// lowercasing), resuming `step` bytes after each match, and makes a hit
/// of each match; `None` when a match does not line up with the content.
fn scan_scroll(coord: Coordinate, content: &[u8], hay: &[u8], needle: &[u8], step: usize, max_results: usize) -> (r: Option<Vec<SearchHit>>)
    requires
        valid_utf8(content@),
        valid_utf8(hay@),
    ensures
        match r {
            None => scroll_search(coord, content@, hay@, needle@, step as nat, max_results) is None,
            Some(h) => scroll_search(coord, content@, hay@, needle@, step as nat, max_results) == Some(hits_view(h@)),
        },
{
    let ghost limit = scan_limit(max_results);
    let ghost ps = scan_positions(hay@, needle@, 0, step as nat, limit);
    let n = content.len();
    let hn = hay.len();
    let mut hits: Vec<SearchHit> = Vec::new();
    let mut start: usize = 0;
    loop
        invariant_except_break
            hits@.len() < limit,
            hits@.len() <= ps.len(),
            limit == scan_limit(max_results),
            ps == scan_positions(hay@, needle@, 0, step as nat, limit),
            n == content@.len(),
            hn == hay@.len(),
            valid_utf8(content@),
            valid_utf8(hay@),
            start <= hn,
            scan_positions(hay@, needle@, start as nat, step as nat, (limit - hits@.len()) as nat) == ps.skip(hits@.len() as int),
            hits_view(hits@) == hits_at(coord, content@, ps.take(hits@.len() as int), step as nat),
            scan_fits(content@, hay@, ps.take(hits@.len() as int), step as nat, limit),
        ensures
            scroll_search(coord, content@, hay@, needle@, step as nat, max_results) == Some(hits_view(hits@)),
        decreases limit - hits@.len(),
    {
        let ghost k = hits@.len() as int;
        match find_bytes(hay, needle, start) {
            None => {
                assert(scan_positions(hay@, needle@, start as nat, step as nat, (limit - k) as nat) =~= Seq::<nat>::empty());
                assert(ps.skip(k).len() == 0);
                assert(ps.take(k) =~= ps);
                break;
            },
            Some(p) => {
                proof {
                    lemma_find_from_some(hay@, needle@, start as nat);
                    let rest = scan_positions(hay@, needle@, start as nat, step as nat, (limit - k) as nat);
                    assert(rest == seq![p as nat] + scan_positions(hay@, needle@, (p + step) as nat, step as nat, (limit - k - 1) as nat));
                    assert(rest[0] == p as nat);
                    assert(ps.skip(k).len() > 0);
                    assert(ps.skip(k)[0] == ps[k]);
                    assert(ps[k] == p as nat);
                }
                if p > n || step > n - p || !char_boundary(content, p) || !char_boundary(content, p + step) {
                    proof {
                        assert(!scan_fits(content@, hay@, ps, step as nat, limit)) by {
                            assert(ps[k] == p as nat);
                        }
                    }
                    return None;
                }
                let context = context_of(content, p, step);
                let ghost old_hits = hits@;
                hits.push(SearchHit { coordinate: coord, offset: p, length: step, context });
                proof {
                    assert(ps.take(k + 1) =~= ps.take(k).push(p as nat));
                    assert(hits_view(hits@) =~= hits_view(old_hits).push(hit_view(hits@[k])));
                    assert(hit_view(hits@[k]) == (coord, p, step, context_bytes(content@, p as int, step as int)));
                    assert(hits_at(coord, content@, ps.take(k).push(p as nat), step as nat) =~= hits_at(
                        coord,
                        content@,
                        ps.take(k),
                        step as nat,
                    ).push((coord, p, step, context_bytes(content@, p as int, step as int))));
                    assert(hits_view(hits@) =~= hits_at(coord, content@, ps.take(k + 1), step as nat));
                }
                if hits.len() >= max_results {
                    proof {
                        assert(k + 1 == limit);
                        assert(ps.len() <= limit);
                        assert(ps.take(k + 1) =~= ps);
                    }
                    break;
                }
                if step > hn - p || !char_boundary(hay, p + step) {
                    proof {
                        assert(!scan_fits(content@, hay@, ps, step as nat, limit)) by {
                            assert(ps[k] == p as nat);
                        }
                    }
                    return None;
                }
                proof {
                    assert(ps.skip(k + 1) =~= ps.skip(k).drop_first());
                    let rest = scan_positions(hay@, needle@, start as nat, step as nat, (limit - k) as nat);
                    assert(rest.drop_first() =~= scan_positions(hay@, needle@, (p + step) as nat, step as nat, (limit - k - 1) as nat));
                }
                start = p + step;
            },
        }
    }
    Some(hits)
}


/// What searching one scroll's bytes gives: no hits for text that is not
/// valid UTF-8; otherwise the scan of the text (or, ignoring case, of its
/// lowercasing for the lowercased pattern), each hit as long as the
/// pattern; nothing when a match does not line up with the text.
pub open spec fn scroll_hits(
    coord: Coordinate,
    b: Seq<u8>,
    pattern: Seq<char>,
    pattern_lower: Seq<char>,
    case_sensitive: bool,
    max: usize,
) -> Option<Seq<(Coordinate, usize, usize, Seq<u8>)>> {
    if !valid_utf8(b) {
        Some(seq![])
    } else {
        let hay = if case_sensitive {
            b
        } else {
            encode_utf8(lowercase_text(decode_utf8(b)))
        };
        let needle = if case_sensitive {
            encode_utf8(pattern)
        } else {
            encode_utf8(pattern_lower)
        };
        scroll_search(coord, b, hay, needle, encode_utf8(pattern).len(), max)
    }
}

/// Searches one scroll's bytes for `pattern` (or, ignoring case, for its
/// lowercasing `pattern_lower`), for at most `max_results` hits; `None`
/// when a match does not line up with the scroll's text.
pub fn search_scroll(
    coord: Coordinate,
    bytes: &[u8],
    pattern: &str,
    pattern_lower: &str,
    case_sensitive: bool,
    max_results: usize,
) -> (r: Option<Vec<SearchHit>>)
    ensures
        match r {
            None => scroll_hits(coord, bytes@, pattern@, pattern_lower@, case_sensitive, max_results) is None,
            Some(h) => scroll_hits(coord, bytes@, pattern@, pattern_lower@, case_sensitive, max_results)
                == Some(hits_view(h@)),
        },
{
    let content = match str_from_utf8(bytes) {
        Some(c) => c,
        None => {
            let h: Vec<SearchHit> = Vec::new();
            assert(hits_view(h@) =~= Seq::<(Coordinate, usize, usize, Seq<u8>)>::empty());
            return Some(h);
        },
    };
    proof {
        vstd::utf8::decode_utf8_encode_utf8(bytes@);
        vstd::utf8::encode_utf8_valid_utf8(pattern@);
    }
    let step = pattern.as_bytes().len();
    if case_sensitive {
        scan_scroll(coord, bytes, bytes, pattern.as_bytes(), step, max_results)
    } else {
        let lowered = lowercase(content);
        proof {
            vstd::utf8::encode_utf8_valid_utf8(lowered@);
        }
        scan_scroll(coord, bytes, lowered.as_str().as_bytes(), pattern_lower.as_bytes(), step, max_results)
    }
}

/// The hits of a lattice search over the first `k` coordinates: scroll by
/// scroll in document order, each scroll searched for what is still
/// missing, until `max` hits are in; scrolls whose matches do not line up
/// with their text are left out.
pub open spec fn lattice_hits(
    buffer: Seq<u8>,
    e: Seq<(Coordinate, ScrollSpan)>,
    k: int,
    pattern: Seq<char>,
    pattern_lower: Seq<char>,
    case_sensitive: bool,
    max: usize,
) -> Seq<(Coordinate, usize, usize, Seq<u8>)>
    decreases k,
{
    if k <= 0 {
        seq![]
    } else {
        let acc = lattice_hits(buffer, e, k - 1, pattern, pattern_lower, case_sensitive, max);
        let c = coords_of(e)[k - 1];
        if acc.len() >= max {
            acc
        } else {
            match lookup(e, c) {
                None => acc,
                Some(sp) => match scroll_hits(
                    c,
                    buffer.subrange(sp.start as int, sp.end as int),
                    pattern,
                    pattern_lower,
                    case_sensitive,
                    (max - acc.len()) as usize,
                ) {
                    Some(h) => acc + h,
                    None => acc,
                },
            }
        }
    }
}

/// The lowercased pattern a search uses: empty for a case-sensitive one.
pub open spec fn lowered_pattern(pattern: Seq<char>, case_sensitive: bool) -> Seq<char> {
    if case_sensitive {
        seq![]
    } else {
        lowercase_text(pattern)
    }
}

/// A scroll search never returns more than asked for (at least one).
proof fn lemma_scan_len(hay: Seq<u8>, needle: Seq<u8>, start: nat, step: nat, limit: nat)
    ensures
        scan_positions(hay, needle, start, step, limit).len() <= limit,
    decreases limit,
{
    if limit > 0 {
        if let Some(p) = find_from(hay, needle, start) {
            lemma_scan_len(hay, needle, p + step, step, (limit - 1) as nat);
        }
    }
}

/// Searches the lattice for `pattern`, in document order, for at most
/// `max_results` hits (a scroll's first hit may go one over when the limit
/// is zero).
pub fn search_lattice(buffer: &[u8], index: &LatticeIndex, pattern: &str, case_sensitive: bool, max_results: usize) -> (r: Vec<SearchHit>)
    requires
        index.spec_buffer_len() <= buffer@.len(),
    ensures
        hits_view(r@) == lattice_hits(
            buffer@,
            index@,
            index@.len() as int,
            pattern@,
            lowered_pattern(pattern@, case_sensitive),
            case_sensitive,
            max_results,
        ),
{
    let pattern_lower = if case_sensitive {
        String::new()
    } else {
        lowercase(pattern)
    };
    let ghost pl = lowered_pattern(pattern@, case_sensitive);
    assert(pattern_lower@ == pl);
    let coords = index.coordinates();
    let mut hits: Vec<SearchHit> = Vec::new();
    let mut k: usize = 0;
    assert(hits_view(hits@) =~= Seq::<(Coordinate, usize, usize, Seq<u8>)>::empty());
    while k < coords.len()
        invariant
            0 <= k <= coords@.len(),
            coords@ == coords_of(index@),
            coords@.len() == index@.len(),
            index.spec_buffer_len() <= buffer@.len(),
            pattern_lower@ == pl,
            pl == lowered_pattern(pattern@, case_sensitive),
            hits_view(hits@) == lattice_hits(buffer@, index@, k as int, pattern@, pl, case_sensitive, max_results),
        decreases coords@.len() - k,
    {
        if hits.len() >= max_results {
            proof {
                assert(hits_view(hits@).len() == hits@.len());
                lemma_hits_stay(buffer@, index@, k as int, coords@.len() as int, pattern@, pl, case_sensitive, max_results);
            }
            return hits;
        }
        let coord = coords[k];
        match index.get(&coord) {
            Some(span) => {
                let remaining = max_results - hits.len();
                let piece = slice_range(buffer, span.start, span.end);
                match search_scroll(coord, piece, pattern, pattern_lower.as_str(), case_sensitive, remaining) {
                    Some(mut found) => {
                        let ghost before = hits@;
                        let ghost added = found@;
                        hits.append(&mut found);
                        assert(hits_view(hits@) =~= hits_view(before) + hits_view(added)) by {
                            assert(hits@ =~= before + added);
                        }
                    },
                    None => {},
                }
            },
            None => {},
        }
        k = k + 1;
    }
    hits
}

/// Once `max` hits are in, later scrolls add nothing.
proof fn lemma_hits_stay(
    buffer: Seq<u8>,
    e: Seq<(Coordinate, ScrollSpan)>,
    k: int,
    n: int,
    pattern: Seq<char>,
    pattern_lower: Seq<char>,
    case_sensitive: bool,
    max: usize,
)
    requires
        0 <= k <= n,
        lattice_hits(buffer, e, k, pattern, pattern_lower, case_sensitive, max).len() >= max,
    ensures
        lattice_hits(buffer, e, n, pattern, pattern_lower, case_sensitive, max) == lattice_hits(
            buffer,
            e,
            k,
            pattern,
            pattern_lower,
            case_sensitive,
            max,
        ),
    decreases n - k,
{
    if k < n {
        lemma_hits_stay(buffer, e, k, n - 1, pattern, pattern_lower, case_sensitive, max);
    }
}

/// The text of one arm, `a.b.c`, as bytes.
pub open spec fn arm_bytes(a: usize, b: usize, c: usize) -> Seq<u8> {
    decimal(a as nat) + seq![46u8] + decimal(b as nat) + seq![46u8] + decimal(c as nat)
}

/// Whether one of the coordinate's three arms begins with `p`.
pub open spec fn has_arm_prefix(c: Coordinate, p: Seq<u8>) -> bool {
    ||| has_prefix(arm_bytes(c.z.library, c.z.shelf, c.z.series), p)
    ||| has_prefix(arm_bytes(c.y.collection, c.y.volume, c.y.book), p)
    ||| has_prefix(arm_bytes(c.x.chapter, c.x.section, c.x.scroll), p)
}

/// The coordinates of `cs` with an arm that begins with `needle`, in order.
pub open spec fn coords_with_arm(cs: Seq<Coordinate>, needle: Seq<u8>) -> Seq<Coordinate>
    decreases cs.len(),
{
    if cs.len() == 0 {
        seq![]
    } else {
        let rest = coords_with_arm(cs.drop_last(), needle);
        if has_arm_prefix(cs.last(), needle) {
            rest.push(cs.last())
        } else {
            rest
        }
    }
}

/// Whether the arm `a.b.c` begins with `p`.
fn arm_starts_with(a: usize, b: usize, c: usize, p: &[u8]) -> (r: bool)
    ensures
        r == has_prefix(arm_bytes(a, b, c), p@),
{
    let mut v: Vec<u8> = Vec::new();
    push_decimal(&mut v, a);
    v.push(46u8);
    push_decimal(&mut v, b);
    v.push(46u8);
    push_decimal(&mut v, c);
    assert(v@ =~= arm_bytes(a, b, c));
    let n = v.len();
    let r = starts_with(v.as_slice(), 0, n, p);
    assert(v@.subrange(0, n as int) =~= v@);
    r
}

/// The populated coordinates with an arm that begins with the pattern,
/// white space around it ignored; so `3.3.3` finds every coordinate with
/// an arm beginning `3.3.3`.
pub fn search_coordinates(index: &LatticeIndex, pattern: &str) -> (r: Vec<Coordinate>)
    ensures
        r@ == coords_with_arm(coords_of(index@), encode_utf8(trim_end(trim_start(pattern@)))),
{
    let cs = chars_vec(pattern);
    let (s, e) = trimmed_range(cs.as_slice());
    let trimmed = string_from_chars(crate::text::slice_range_chars(cs.as_slice(), s, e));
    let needle = trimmed.as_str().as_bytes();
    let coords = index.coordinates();
    let mut out: Vec<Coordinate> = Vec::new();
    let mut k: usize = 0;
    while k < coords.len()
        invariant
            0 <= k <= coords@.len(),
            coords@ == coords_of(index@),
            needle@ == encode_utf8(trim_end(trim_start(pattern@))),
            out@ == coords_with_arm(coords@.take(k as int), needle@),
        decreases coords@.len() - k,
    {
        let c = coords[k];
        assert(coords@.take(k + 1).drop_last() =~= coords@.take(k as int));
        assert(coords@.take(k + 1).last() == c);
        let hit = arm_starts_with(c.z.library, c.z.shelf, c.z.series, needle)
            || arm_starts_with(c.y.collection, c.y.volume, c.y.book, needle)
            || arm_starts_with(c.x.chapter, c.x.section, c.x.scroll, needle);
        if hit {
            out.push(c);
        }
        k = k + 1;
    }
    assert(coords@.take(k as int) =~= coords@);
    out
}

/// Builds the index of a buffer (the scan is sequential whatever the chunk
/// size).
pub fn build_index_parallel(buffer: &[u8], chunk_size: usize) -> (r: LatticeIndex)
    requires
        chunk_size <= usize::MAX / 2,
    ensures
        r@ == index_entries(buffer@),
        r.spec_buffer_len() == buffer@.len(),
{
    if buffer.len() < chunk_size * 2 {
        return LatticeIndex::build(buffer);
    }
    LatticeIndex::build(buffer)
}

/// Buffers below this many bytes are searched serially (parallel search
/// costs more than it saves there).
pub const PARALLEL_BYTE_THRESHOLD: usize = 524288;

/// Whether a search is worth spreading over threads: the buffer reaches
/// the threshold (eight times it for a case-sensitive search, which is
/// cheaper per byte) and there are at least 16 scrolls.
pub fn use_parallel(buffer_len: usize, scroll_count: usize, case_sensitive: bool) -> (r: bool)
    ensures
        r == !(buffer_len < (if case_sensitive {
            PARALLEL_BYTE_THRESHOLD * 8
        } else {
            PARALLEL_BYTE_THRESHOLD as int
        }) || scroll_count < 16),
{
    let threshold = if case_sensitive {
        PARALLEL_BYTE_THRESHOLD * 8
    } else {
        PARALLEL_BYTE_THRESHOLD
    };
    !(buffer_len < threshold || scroll_count < 16)
}

/// The hits of several scrolls, given in document order, flattened and
/// cut at `max_results`.
pub fn merge_hits(all: Vec<Vec<SearchHit>>, max_results: usize) -> (r: Vec<SearchHit>)
    ensures
        ({
            let flat = all@.map_values(|h: Vec<SearchHit>| h@).flatten();
            r@ == if flat.len() <= max_results {
                flat
            } else {
                flat.take(max_results as int)
            }
        }),
{
    let ghost groups = all@.map_values(|h: Vec<SearchHit>| h@);
    let mut all = all;
    let mut result: Vec<SearchHit> = Vec::new();
    let mut i: usize = 0;
    let n = all.len();
    assert(groups.take(0).flatten() =~= Seq::<SearchHit>::empty()) by {
        assert(groups.take(0) =~= Seq::<Seq<SearchHit>>::empty());
    }
    while i < n
        invariant
            0 <= i <= n,
            n == all@.len(),
            n == groups.len(),
            forall|k: int| i <= k < n ==> (#[trigger] all@[k])@ == groups[k],
            result@ == groups.take(i as int).flatten(),
        decreases n - i,
    {
        let ghost g = all@[i as int]@;
        result.append(&mut all[i]);
        proof {
            assert(groups.take(i + 1) =~= groups.take(i as int).push(g));
            groups.take(i as int).lemma_flatten_push(g);
        }
        i = i + 1;
    }
    assert(groups.take(n as int) =~= groups);
    result.truncate(max_results);
    result
}

} // verus!
