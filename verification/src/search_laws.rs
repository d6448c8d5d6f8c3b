//! Searching the scrolls one by one, each in full, and then keeping the
//! first hits gives what the serial search gives.
//!
//! The serial search asks each scroll only for the hits still missing; a
//! search that runs the scrolls side by side asks each for all of them and
//! trims the joined list afterwards. The two agree because a scan for fewer
//! hits stops at a prefix of a scan for more.
use vstd::prelude::*;

use crate::coordinate::{decimal, Coordinate};
use crate::text::has_prefix;
use crate::index::{coords_of, lookup, ScrollSpan};
use crate::search::{coords_with_arm, has_arm_prefix, hits_at, lattice_hits, scan_fits, scan_limit, scan_positions, scroll_hits, scroll_search};

verus! {

/// `s` cut to its first `max` elements.
pub open spec fn capped<A>(s: Seq<A>, max: nat) -> Seq<A> {
    if s.len() <= max {
        s
    } else {
        s.take(max as int)
    }
}

/// The hits of entry `k` when its scroll is searched for all `max` hits
/// (none when the entry has no span or the search does not line up).
pub open spec fn scroll_group(
    buffer: Seq<u8>,
    e: Seq<(Coordinate, ScrollSpan)>,
    k: int,
    pattern: Seq<char>,
    pattern_lower: Seq<char>,
    case_sensitive: bool,
    max: usize,
) -> Seq<(Coordinate, usize, usize, Seq<u8>)> {
    let c = coords_of(e)[k];
    match lookup(e, c) {
        None => seq![],
        Some(sp) => match scroll_hits(
            c,
            buffer.subrange(sp.start as int, sp.end as int),
            pattern,
            pattern_lower,
            case_sensitive,
            max,
        ) {
            Some(h) => h,
            None => seq![],
        },
    }
}

/// The hits of the first `k` entries, each scroll searched in full.
pub open spec fn scroll_groups(
    buffer: Seq<u8>,
    e: Seq<(Coordinate, ScrollSpan)>,
    k: int,
    pattern: Seq<char>,
    pattern_lower: Seq<char>,
    case_sensitive: bool,
    max: usize,
) -> Seq<Seq<(Coordinate, usize, usize, Seq<u8>)>> {
    Seq::new(k as nat, |i: int| scroll_group(buffer, e, i, pattern, pattern_lower, case_sensitive, max))
}

/// Whether every scroll of the first `k` entries that has a span can be
/// searched in full: its scan for `max` hits lines up with its text.
pub open spec fn full_scans_fit(
    buffer: Seq<u8>,
    e: Seq<(Coordinate, ScrollSpan)>,
    k: int,
    pattern: Seq<char>,
    pattern_lower: Seq<char>,
    case_sensitive: bool,
    max: usize,
) -> bool {
    forall|i: int|
        0 <= i < k ==> (lookup(e, #[trigger] coords_of(e)[i]) matches Some(sp) ==> scroll_hits(
            coords_of(e)[i],
            buffer.subrange(sp.start as int, sp.end as int),
            pattern,
            pattern_lower,
            case_sensitive,
            max,
        ) is Some)
}

/// A scan for at most `m` matches visits the first of the positions a scan
/// for at most `l >= m` visits.
proof fn lemma_scan_prefix(hay: Seq<u8>, needle: Seq<u8>, start: nat, step: nat, m: nat, l: nat)
    requires
        m <= l,
    ensures
        scan_positions(hay, needle, start, step, m) == capped(scan_positions(hay, needle, start, step, l), m),
    decreases m,
{
    let pl = scan_positions(hay, needle, start, step, l);
    if m == 0 {
        assert(pl.take(0) =~= Seq::<nat>::empty());
    } else {
        match crate::text::find_from(hay, needle, start) {
            None => {},
            Some(p) => {
                lemma_scan_prefix(hay, needle, p + step, step, (m - 1) as nat, (l - 1) as nat);
                let rm = scan_positions(hay, needle, p + step, step, (m - 1) as nat);
                let rl = scan_positions(hay, needle, p + step, step, (l - 1) as nat);
                assert(pl == seq![p] + rl);
                if rl.len() > m - 1 {
                    assert(pl.take(m as int) =~= seq![p] + rl.take(m - 1));
                }
            },
        }
    }
}

/// A scroll search for `m >= 1` hits gives the first `m` hits of a search
/// for `l >= m` hits, when the latter lines up.
proof fn lemma_scroll_prefix(
    coord: Coordinate,
    b: Seq<u8>,
    pattern: Seq<char>,
    pattern_lower: Seq<char>,
    case_sensitive: bool,
    m: usize,
    l: usize,
)
    requires
        1 <= m <= l,
        scroll_hits(coord, b, pattern, pattern_lower, case_sensitive, l) is Some,
    ensures
        scroll_hits(coord, b, pattern, pattern_lower, case_sensitive, m) == Some(
            capped(scroll_hits(coord, b, pattern, pattern_lower, case_sensitive, l)->0, m as nat),
        ),
{
    if vstd::utf8::valid_utf8(b) {
        let hay = if case_sensitive {
            b
        } else {
            vstd::utf8::encode_utf8(crate::search::lowercase_text(vstd::utf8::decode_utf8(b)))
        };
        let needle = if case_sensitive {
            vstd::utf8::encode_utf8(pattern)
        } else {
            vstd::utf8::encode_utf8(pattern_lower)
        };
        let step = vstd::utf8::encode_utf8(pattern).len();
        let pl = scan_positions(hay, needle, 0, step, scan_limit(l));
        let pm = scan_positions(hay, needle, 0, step, scan_limit(m));
        lemma_scan_prefix(hay, needle, 0, step, m as nat, l as nat);
        assert(scan_fits(b, hay, pl, step, scan_limit(l)));
        assert forall|i: int| 0 <= i < pm.len() implies pm[i] == pl[i] by {
            if pl.len() > m {
                assert(pm[i] == pl.take(m as int)[i]);
            }
        }
        assert(scan_fits(b, hay, pm, step, scan_limit(m))) by {
            assert forall|i: int| 0 <= i < pm.len() implies {
                let p = #[trigger] pm[i];
                &&& p + step <= b.len()
                &&& vstd::utf8::is_char_boundary(b, p as int)
                &&& vstd::utf8::is_char_boundary(b, (p + step) as int)
                &&& (i + 1 < scan_limit(m) ==> p + step <= hay.len() && vstd::utf8::is_char_boundary(
                    hay,
                    (p + step) as int,
                ))
            } by {
                assert(pm[i] == pl[i]);
            }
        }
        let hl = hits_at(coord, b, pl, step);
        let hm = hits_at(coord, b, pm, step);
        if pl.len() > m {
            assert(hm =~= hl.take(m as int));
        } else {
            assert(pm == pl);
        }
    }
}

/// Searching each scroll for all `max` hits, joining the hits in document
/// order and keeping the first `max` gives the serial search's hits, when
/// every scroll's full scan lines up with its text.
pub proof fn lemma_full_scans_match_serial(
    buffer: Seq<u8>,
    e: Seq<(Coordinate, ScrollSpan)>,
    k: int,
    pattern: Seq<char>,
    pattern_lower: Seq<char>,
    case_sensitive: bool,
    max: usize,
)
    requires
        0 <= k <= e.len(),
        full_scans_fit(buffer, e, k, pattern, pattern_lower, case_sensitive, max),
    ensures
        capped(scroll_groups(buffer, e, k, pattern, pattern_lower, case_sensitive, max).flatten(), max as nat)
            == lattice_hits(buffer, e, k, pattern, pattern_lower, case_sensitive, max),
    decreases k,
{
    let gs = scroll_groups(buffer, e, k, pattern, pattern_lower, case_sensitive, max);
    if k == 0 {
        assert(gs =~= Seq::<Seq<(Coordinate, usize, usize, Seq<u8>)>>::empty());
        assert(gs.flatten() =~= Seq::<(Coordinate, usize, usize, Seq<u8>)>::empty());
    } else {
        let prev = scroll_groups(buffer, e, k - 1, pattern, pattern_lower, case_sensitive, max);
        assert(full_scans_fit(buffer, e, k - 1, pattern, pattern_lower, case_sensitive, max));
        lemma_full_scans_match_serial(buffer, e, k - 1, pattern, pattern_lower, case_sensitive, max);
        let g = scroll_group(buffer, e, k - 1, pattern, pattern_lower, case_sensitive, max);
        assert(gs =~= prev.push(g));
        prev.lemma_flatten_push(g);
        let f = prev.flatten();
        assert(gs.flatten() == f + g);
        let acc = lattice_hits(buffer, e, k - 1, pattern, pattern_lower, case_sensitive, max);
        let c = coords_of(e)[k - 1];
        if acc.len() >= max {
            assert(f.len() >= max);
            assert((f + g).take(max as int) =~= f.take(max as int));
        } else {
            assert(acc == f);
            let rest = (max - acc.len()) as usize;
            match lookup(e, c) {
                None => {
                    assert(g =~= Seq::<(Coordinate, usize, usize, Seq<u8>)>::empty());
                    assert(f + g =~= f);
                },
                Some(sp) => {
                    let b = buffer.subrange(sp.start as int, sp.end as int);
                    assert(scroll_hits(c, b, pattern, pattern_lower, case_sensitive, max) is Some);
                    lemma_scroll_prefix(c, b, pattern, pattern_lower, case_sensitive, rest, max);
                    if (f + g).len() > max {
                        assert((f + g).take(max as int) =~= f + g.take(rest as int));
                    }
                },
            }
        }
    }
}

/// What the coordinate search keeps: exactly the coordinates of `cs` with
/// an arm (Z `library.shelf.series`, Y `collection.volume.book` or X
/// `chapter.section.scroll`, each written in decimal) whose text begins
/// with `needle`.
pub proof fn lemma_coords_with_arm(cs: Seq<Coordinate>, needle: Seq<u8>, c: Coordinate)
    ensures
        coords_with_arm(cs, needle).contains(c) <==> cs.contains(c) && {
            ||| has_prefix(
                decimal(c.z.library as nat) + seq![46u8] + decimal(c.z.shelf as nat) + seq![46u8] + decimal(
                    c.z.series as nat,
                ),
                needle,
            )
            ||| has_prefix(
                decimal(c.y.collection as nat) + seq![46u8] + decimal(c.y.volume as nat) + seq![46u8] + decimal(
                    c.y.book as nat,
                ),
                needle,
            )
            ||| has_prefix(
                decimal(c.x.chapter as nat) + seq![46u8] + decimal(c.x.section as nat) + seq![46u8] + decimal(
                    c.x.scroll as nat,
                ),
                needle,
            )
        },
    decreases cs.len(),
{
    if cs.len() > 0 {
        let p = cs.drop_last();
        lemma_coords_with_arm(p, needle, c);
        let r = coords_with_arm(cs, needle);
        let rp = coords_with_arm(p, needle);
        if cs.contains(c) && c != cs.last() {
            let k = choose|k: int| 0 <= k < cs.len() && cs[k] == c;
            assert(p[k] == c);
        }
        if p.contains(c) {
            let k = choose|k: int| 0 <= k < p.len() && p[k] == c;
            assert(cs[k] == c);
        }
        if c == cs.last() {
            assert(cs[cs.len() - 1] == c);
        }
        if r.contains(c) && !(has_arm_prefix(cs.last(), needle) && c == cs.last()) {
            let k = choose|k: int| 0 <= k < r.len() && r[k] == c;
            if has_arm_prefix(cs.last(), needle) {
                assert(k < rp.len());
                assert(rp[k] == c);
            } else {
                assert(rp[k] == c);
            }
        }
        if rp.contains(c) && has_arm_prefix(cs.last(), needle) {
            let k = choose|k: int| 0 <= k < rp.len() && rp[k] == c;
            assert(r[k] == c);
        }
        if c == cs.last() && has_arm_prefix(c, needle) {
            assert(r[r.len() - 1] == c);
        }
    }
}

} // verus!
