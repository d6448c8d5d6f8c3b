//! The lattice index: one scan over a phext buffer records, for every
//! non-empty scroll, its coordinate and the byte span of its content.
use vstd::prelude::*;

use crate::coordinate::{
    base_coordinate, coord_lt, default_coordinate, lemma_coord_order, strictly_sorted, Coordinate,
};
use crate::coordinate_ext::{broken, dim_val, Dimension, CoordinateNav};

verus! {

/// A scroll's location within a phext buffer: bytes `start..end`.
#[derive(Debug, Clone, Copy, PartialEq, Eq, Structural)]
pub struct ScrollSpan {
    /// First byte of the content (inclusive).
    pub start: usize,
    /// End of the content (exclusive).
    pub end: usize,
}

impl ScrollSpan {
    /// Number of content bytes.
    pub fn len(&self) -> (r: usize)
        requires
            self.start <= self.end,
        ensures
            r == self.end - self.start,
    {
        self.end - self.start
    }

    /// Whether the span holds no bytes.
    pub fn is_empty(&self) -> (r: bool)
        ensures
            r == (self.start == self.end),
    {
        self.start == self.end
    }
}

/// The dimension whose delimiter is byte `b`, if `b` is a delimiter.
pub open spec fn delimiter_dim(b: u8) -> Option<Dimension> {
    if b == 0x17 {
        Some(Dimension::Scroll)
    } else if b == 0x18 {
        Some(Dimension::Section)
    } else if b == 0x19 {
        Some(Dimension::Chapter)
    } else if b == 0x1A {
        Some(Dimension::Book)
    } else if b == 0x1C {
        Some(Dimension::Volume)
    } else if b == 0x1D {
        Some(Dimension::Collection)
    } else if b == 0x1E {
        Some(Dimension::Series)
    } else if b == 0x1F {
        Some(Dimension::Shelf)
    } else if b == 0x01 {
        Some(Dimension::Library)
    } else {
        None
    }
}

/// Whether byte `b` is one of the nine phext delimiters.
pub open spec fn is_delimiter(b: u8) -> bool {
    delimiter_dim(b) is Some
}

/// The coordinate in effect after reading `bytes[0..n]`: the origin moved
/// by every delimiter met so far.
pub open spec fn coord_at(bytes: Seq<u8>, n: nat) -> Coordinate
    decreases n,
{
    if n == 0 {
        base_coordinate()
    } else {
        let c = coord_at(bytes, (n - 1) as nat);
        match delimiter_dim(bytes[n - 1]) {
            Some(d) => broken(c, d),
            None => c,
        }
    }
}

/// Where the scroll being read at position `n` began: just after the last
/// delimiter in `bytes[0..n]`, or 0.
pub open spec fn segment_start(bytes: Seq<u8>, n: nat) -> nat
    decreases n,
{
    if n == 0 {
        0
    } else if is_delimiter(bytes[n - 1]) {
        n
    } else {
        segment_start(bytes, (n - 1) as nat)
    }
}

/// The scrolls closed by the delimiters in `bytes[0..n]`, in document
/// order; an empty scroll is not recorded.
pub open spec fn committed(bytes: Seq<u8>, n: nat) -> Seq<(Coordinate, ScrollSpan)>
    decreases n,
{
    if n == 0 {
        seq![]
    } else {
        let prev = committed(bytes, (n - 1) as nat);
        let s = segment_start(bytes, (n - 1) as nat);
        if is_delimiter(bytes[n - 1]) && s < n - 1 {
            prev.push(
                (
                    coord_at(bytes, (n - 1) as nat),
                    ScrollSpan { start: s as usize, end: (n - 1) as usize },
                ),
            )
        } else {
            prev
        }
    }
}

/// Every non-empty scroll of `bytes` with its coordinate and span, in
/// document order.
pub open spec fn index_entries(bytes: Seq<u8>) -> Seq<(Coordinate, ScrollSpan)> {
    let n = bytes.len();
    let s = segment_start(bytes, n);
    if s < n {
        committed(bytes, n).push(
            (coord_at(bytes, n), ScrollSpan { start: s as usize, end: n as usize }),
        )
    } else {
        committed(bytes, n)
    }
}

/// The coordinates of a list of entries.
pub open spec fn coords_of(e: Seq<(Coordinate, ScrollSpan)>) -> Seq<Coordinate> {
    e.map_values(|p: (Coordinate, ScrollSpan)| p.0)
}

/// The span recorded last for coordinate `c`, as a map keyed by
/// coordinate keeps it.
pub open spec fn lookup(e: Seq<(Coordinate, ScrollSpan)>, c: Coordinate) -> Option<ScrollSpan>
    decreases e.len(),
{
    if e.len() == 0 {
        None
    } else if e.last().0 == c {
        Some(e.last().1)
    } else {
        lookup(e.drop_last(), c)
    }
}

/// The number of distinct coordinates in `s`.
pub open spec fn distinct_count(s: Seq<Coordinate>) -> nat
    decreases s.len(),
{
    if s.len() == 0 {
        0
    } else if s.drop_last().contains(s.last()) {
        distinct_count(s.drop_last())
    } else {
        distinct_count(s.drop_last()) + 1
    }
}

/// `r` is the first coordinate of `s` after `c` in document order.
pub open spec fn is_next_after(s: Seq<Coordinate>, c: Coordinate, r: Option<Coordinate>) -> bool {
    match r {
        Some(x) => s.contains(x) && coord_lt(c, x) && forall|i: int|
            0 <= i < s.len() && coord_lt(c, #[trigger] s[i]) ==> !coord_lt(s[i], x),
        None => forall|i: int| 0 <= i < s.len() ==> !coord_lt(c, #[trigger] s[i]),
    }
}

/// `r` is the last coordinate of `s` before `c` in document order.
pub open spec fn is_prev_before(s: Seq<Coordinate>, c: Coordinate, r: Option<Coordinate>) -> bool {
    match r {
        Some(x) => s.contains(x) && coord_lt(x, c) && forall|i: int|
            0 <= i < s.len() && coord_lt(#[trigger] s[i], c) ==> !coord_lt(x, s[i]),
        None => forall|i: int| 0 <= i < s.len() ==> !coord_lt(#[trigger] s[i], c),
    }
}

/// The answer to "next after" is unique.
pub proof fn lemma_next_after_unique(
    s: Seq<Coordinate>,
    c: Coordinate,
    r1: Option<Coordinate>,
    r2: Option<Coordinate>,
)
    requires
        is_next_after(s, c, r1),
        is_next_after(s, c, r2),
    ensures
        r1 == r2,
{
    match r1 {
        Some(x) => {
            let i = choose|i: int| 0 <= i < s.len() && s[i] == x;
            match r2 {
                Some(y) => {
                    let j = choose|j: int| 0 <= j < s.len() && s[j] == y;
                    crate::coordinate::lemma_coord_order(x, y, c);
                },
                None => {
                    assert(!coord_lt(c, s[i]));
                },
            }
        },
        None => {
            match r2 {
                Some(y) => {
                    let j = choose|j: int| 0 <= j < s.len() && s[j] == y;
                    assert(!coord_lt(c, s[j]));
                },
                None => {},
            }
        },
    }
}

/// Stepping to the next populated coordinate and then to the previous one
/// comes back to a populated starting point.
pub proof fn lemma_next_then_prev(s: Seq<Coordinate>, c: Coordinate, n: Coordinate)
    requires
        s.contains(c),
        is_next_after(s, c, Some(n)),
    ensures
        is_prev_before(s, n, Some(c)),
{
    assert forall|i: int| 0 <= i < s.len() && coord_lt(#[trigger] s[i], n) implies !coord_lt(c, s[i]) by {
        crate::coordinate::lemma_coord_order(c, s[i], n);
        crate::coordinate::lemma_coord_order(s[i], n, c);
    }
}

/// Stepping to the previous populated coordinate and then to the next one
/// comes back to a populated starting point.
pub proof fn lemma_prev_then_next(s: Seq<Coordinate>, c: Coordinate, p: Coordinate)
    requires
        s.contains(c),
        is_prev_before(s, c, Some(p)),
    ensures
        is_next_after(s, p, Some(c)),
{
    assert forall|i: int| 0 <= i < s.len() && coord_lt(p, #[trigger] s[i]) implies !coord_lt(s[i], c) by {
        crate::coordinate::lemma_coord_order(p, s[i], c);
        crate::coordinate::lemma_coord_order(s[i], c, p);
    }
}

/// The answer to "previous before" is unique.
pub proof fn lemma_prev_before_unique(
    s: Seq<Coordinate>,
    c: Coordinate,
    r1: Option<Coordinate>,
    r2: Option<Coordinate>,
)
    requires
        is_prev_before(s, c, r1),
        is_prev_before(s, c, r2),
    ensures
        r1 == r2,
{
    match r1 {
        Some(x) => {
            let i = choose|i: int| 0 <= i < s.len() && s[i] == x;
            match r2 {
                Some(y) => {
                    let j = choose|j: int| 0 <= j < s.len() && s[j] == y;
                    crate::coordinate::lemma_coord_order(x, y, c);
                },
                None => {
                    assert(!coord_lt(s[i], c));
                },
            }
        },
        None => {
            match r2 {
                Some(y) => {
                    let j = choose|j: int| 0 <= j < s.len() && s[j] == y;
                    assert(!coord_lt(s[j], c));
                },
                None => {},
            }
        },
    }
}

/// Every value of `c` lies in `1..=999`, the range delimiters reach.
pub open spec fn in_delimiter_range(c: Coordinate) -> bool {
    &&& 1 <= c.z.library <= 999
    &&& 1 <= c.z.shelf <= 999
    &&& 1 <= c.z.series <= 999
    &&& 1 <= c.y.collection <= 999
    &&& 1 <= c.y.volume <= 999
    &&& 1 <= c.y.book <= 999
    &&& 1 <= c.x.chapter <= 999
    &&& 1 <= c.x.section <= 999
    &&& 1 <= c.x.scroll <= 999
}

/// Delimiters keep every value in `1..=999`.
pub proof fn lemma_coord_at_in_range(bytes: Seq<u8>, n: nat)
    requires
        n <= bytes.len(),
    ensures
        in_delimiter_range(coord_at(bytes, n)),
    decreases n,
{
    if n > 0 {
        lemma_coord_at_in_range(bytes, (n - 1) as nat);
    }
}

/// The span recorded for `c` does not depend on later entries with other
/// coordinates.
pub proof fn lemma_lookup_skip_tail(e: Seq<(Coordinate, ScrollSpan)>, c: Coordinate, j: int)
    requires
        0 <= j <= e.len(),
        forall|k: int| j <= k < e.len() ==> (#[trigger] e[k]).0 != c,
    ensures
        lookup(e, c) == lookup(e.take(j), c),
    decreases e.len() - j,
{
    if j == e.len() {
        assert(e.take(j) =~= e);
    } else {
        assert(e.last().0 != c);
        lemma_lookup_skip_tail(e.drop_last(), c, j);
        assert(e.drop_last().take(j) =~= e.take(j));
    }
}

/// Every entry of the index lies inside the buffer.
pub proof fn lemma_entries_bounded(bytes: Seq<u8>)
    requires
        bytes.len() <= usize::MAX,
    ensures
        forall|i: int|
            0 <= i < index_entries(bytes).len() ==> (#[trigger] index_entries(bytes)[i]).1.start
                <= index_entries(bytes)[i].1.end <= bytes.len(),
{
    lemma_committed_bounded(bytes, bytes.len());
    lemma_segment_start_le(bytes, bytes.len());
    let c = committed(bytes, bytes.len());
    let e = index_entries(bytes);
    assert forall|i: int| 0 <= i < e.len() implies (#[trigger] e[i]).1.start <= e[i].1.end
        <= bytes.len() by {
        if i < c.len() {
            assert(e[i] == c[i]);
        }
    }
}

/// The scroll being read starts no later than the current position.
pub proof fn lemma_segment_start_le(bytes: Seq<u8>, n: nat)
    ensures
        segment_start(bytes, n) <= n,
    decreases n,
{
    if n > 0 {
        lemma_segment_start_le(bytes, (n - 1) as nat);
    }
}

/// Closed scrolls lie inside the part already read.
pub proof fn lemma_committed_bounded(bytes: Seq<u8>, n: nat)
    requires
        n <= bytes.len() <= usize::MAX,
    ensures
        forall|i: int|
            0 <= i < committed(bytes, n).len() ==> (#[trigger] committed(bytes, n)[i]).1.start
                <= committed(bytes, n)[i].1.end <= n,
    decreases n,
{
    if n > 0 {
        lemma_committed_bounded(bytes, (n - 1) as nat);
        lemma_segment_start_le(bytes, (n - 1) as nat);
        let p = committed(bytes, (n - 1) as nat);
        let c = committed(bytes, n);
        assert forall|i: int| 0 <= i < c.len() implies (#[trigger] c[i]).1.start <= c[i].1.end
            <= n by {
            if i < p.len() {
                assert(c[i] == p[i]);
            }
        }
    }
}

/// A span found by `lookup` is one of the entries.
pub proof fn lemma_lookup_in(e: Seq<(Coordinate, ScrollSpan)>, c: Coordinate)
    ensures
        lookup(e, c) matches Some(sp) ==> exists|i: int| 0 <= i < e.len() && #[trigger] e[i] == (c, sp),
    decreases e.len(),
{
    if e.len() > 0 && e.last().0 != c {
        lemma_lookup_in(e.drop_last(), c);
        if let Some(sp) = lookup(e, c) {
            let i = choose|i: int| 0 <= i < e.drop_last().len() && #[trigger] e.drop_last()[i] == (c, sp);
            assert(e[i] == (c, sp));
        }
    } else if e.len() > 0 {
        assert(e[e.len() - 1] == e.last());
    }
}

/// The span found for a coordinate lies inside the buffer.
pub proof fn lemma_lookup_span_bounds(bytes: Seq<u8>, c: Coordinate)
    requires
        bytes.len() <= usize::MAX,
    ensures
        lookup(index_entries(bytes), c) matches Some(sp) ==> sp.start <= sp.end <= bytes.len(),
{
    lemma_entries_bounded(bytes);
    lemma_lookup_in(index_entries(bytes), c);
}

/// A coordinate has a span exactly when it is among the entries.
pub proof fn lemma_lookup_some_iff(e: Seq<(Coordinate, ScrollSpan)>, c: Coordinate)
    ensures
        lookup(e, c) is Some <==> coords_of(e).contains(c),
    decreases e.len(),
{
    if e.len() > 0 {
        lemma_lookup_some_iff(e.drop_last(), c);
        assert(coords_of(e.drop_last()) =~= coords_of(e).drop_last());
        if e.last().0 == c {
            assert(coords_of(e)[e.len() - 1] == c);
        } else if coords_of(e).contains(c) {
            let k = choose|k: int| 0 <= k < coords_of(e).len() && coords_of(e)[k] == c;
            assert(k < e.len() - 1);
            assert(coords_of(e.drop_last())[k] == c);
        }
    }
}

/// Pairs up coordinates and spans.
pub open spec fn zip_entries(cs: Seq<Coordinate>, ss: Seq<ScrollSpan>) -> Seq<(Coordinate, ScrollSpan)> {
    Seq::new(cs.len(), |i: int| (cs[i], ss[i]))
}

/// The exec dimension of a delimiter byte.
fn delimiter_of_byte(b: u8) -> (r: Option<Dimension>)
    ensures
        r == delimiter_dim(b),
{
    match b {
        0x17 => Some(Dimension::Scroll),
        0x18 => Some(Dimension::Section),
        0x19 => Some(Dimension::Chapter),
        0x1A => Some(Dimension::Book),
        0x1C => Some(Dimension::Volume),
        0x1D => Some(Dimension::Collection),
        0x1E => Some(Dimension::Series),
        0x1F => Some(Dimension::Shelf),
        0x01 => Some(Dimension::Library),
        _ => None,
    }
}

/// The index over one phext buffer: every non-empty scroll's coordinate and
/// byte span, in document order.
#[derive(Debug)]
pub struct LatticeIndex {
    /// Coordinates of the recorded scrolls, in document order.
    ordered: Vec<Coordinate>,
    /// The byte span of each recorded scroll, parallel to `ordered`.
    spans: Vec<ScrollSpan>,
    /// Size of the indexed buffer in bytes.
    buffer_len: usize,
    /// Whether `ordered` is strictly increasing (the normal case).
    sorted: bool,
    /// Number of distinct coordinates in `ordered`.
    distinct: usize,
}

impl View for LatticeIndex {
    type V = Seq<(Coordinate, ScrollSpan)>;

    closed spec fn view(&self) -> Seq<(Coordinate, ScrollSpan)> {
        zip_entries(self.ordered@, self.spans@)
    }
}

impl Clone for LatticeIndex {
    fn clone(&self) -> (r: LatticeIndex)
        ensures
            r@ == self@,
            r.spec_buffer_len() == self.spec_buffer_len(),
    {
        proof {
            use_type_invariant(self);
        }
        LatticeIndex {
            ordered: self.ordered.clone(),
            spans: self.spans.clone(),
            buffer_len: self.buffer_len,
            sorted: self.sorted,
            distinct: self.distinct,
        }
    }
}

impl LatticeIndex {
    #[verifier::type_invariant]
    closed spec fn inv(self) -> bool {
        &&& self.ordered.len() == self.spans.len()
        &&& self.sorted == strictly_sorted(self.ordered@)
        &&& self.distinct == distinct_count(self.ordered@)
        &&& forall|i: int|
            0 <= i < self.spans.len() ==> (#[trigger] self.spans@[i]).start <= self.spans@[i].end
                <= self.buffer_len
    }

    /// Size of the indexed buffer, in specifications.
    pub closed spec fn spec_buffer_len(&self) -> nat {
        self.buffer_len as nat
    }

    /// Builds the index with one scan over `buffer`.
    pub fn build(buffer: &[u8]) -> (r: LatticeIndex)
        ensures
            r@ == index_entries(buffer@),
            r.spec_buffer_len() == buffer@.len(),
    {
        let mut ordered: Vec<Coordinate> = Vec::new();
        let mut spans: Vec<ScrollSpan> = Vec::new();
        let mut coord = default_coordinate();
        let mut scroll_start: usize = 0;
        let len = buffer.len();
        let mut i: usize = 0;
        while i < len
            invariant
                0 <= i <= len,
                len == buffer@.len(),
                ordered@.len() == spans@.len(),
                zip_entries(ordered@, spans@) == committed(buffer@, i as nat),
                coord == coord_at(buffer@, i as nat),
                scroll_start as nat == segment_start(buffer@, i as nat),
                scroll_start <= i,
            decreases len - i,
        {
            proof {
                lemma_coord_at_in_range(buffer@, i as nat);
            }
            let byte = buffer[i];
            let brk = delimiter_of_byte(byte);
            if let Some(d) = brk {
                let span = ScrollSpan { start: scroll_start, end: i };
                if !span.is_empty() {
                    ordered.push(coord);
                    spans.push(span);
                }
                match d {
                    Dimension::Scroll => coord.scroll_break(),
                    Dimension::Section => coord.section_break(),
                    Dimension::Chapter => coord.chapter_break(),
                    Dimension::Book => coord.book_break(),
                    Dimension::Volume => coord.volume_break(),
                    Dimension::Collection => coord.collection_break(),
                    Dimension::Series => coord.series_break(),
                    Dimension::Shelf => coord.shelf_break(),
                    Dimension::Library => coord.library_break(),
                }
                scroll_start = i + 1;
            }
            assert(zip_entries(ordered@, spans@) =~= committed(buffer@, (i + 1) as nat));
            i = i + 1;
        }
        if scroll_start < len {
            let span = ScrollSpan { start: scroll_start, end: len };
            if !span.is_empty() {
                ordered.push(coord);
                spans.push(span);
            }
        }
        assert(zip_entries(ordered@, spans@) =~= index_entries(buffer@));
        proof {
            lemma_entries_bounded(buffer@);
            assert forall|i: int| 0 <= i < spans@.len() implies (#[trigger] spans@[i]).start <= spans@[i].end
                <= len by {
                assert(index_entries(buffer@)[i].1 == spans@[i]);
            }
        }
        let sorted = Self::check_sorted(&ordered);
        let distinct = if sorted {
            proof {
                Self::lemma_sorted_distinct(ordered@);
            }
            ordered.len()
        } else {
            Self::count_distinct(&ordered)
        };
        LatticeIndex { ordered, spans, buffer_len: len, sorted, distinct }
    }

    /// A strictly increasing sequence has no repeats.
    proof fn lemma_sorted_distinct(s: Seq<Coordinate>)
        requires
            strictly_sorted(s),
        ensures
            distinct_count(s) == s.len(),
        decreases s.len(),
    {
        if s.len() > 0 {
            let p = s.drop_last();
            assert(strictly_sorted(p));
            Self::lemma_sorted_distinct(p);
            if p.contains(s.last()) {
                let k = choose|k: int| 0 <= k < p.len() && p[k] == s.last();
                assert(coord_lt(s[k], s[s.len() - 1]));
            }
        }
    }

    /// Whether `v` is strictly increasing.
    fn check_sorted(v: &Vec<Coordinate>) -> (r: bool)
        ensures
            r == strictly_sorted(v@),
    {
        let n = v.len();
        if n == 0 {
            return true;
        }
        let mut i: usize = 1;
        while i < n
            invariant
                1 <= i <= n,
                n == v@.len(),
                strictly_sorted(v@.take(i as int)),
            decreases n - i,
        {
            if !v[i - 1].precedes(&v[i]) {
                assert(!strictly_sorted(v@)) by {
                    let a = i - 1;
                    let b = i as int;
                    assert(!coord_lt(v@[a], v@[b]));
                }
                return false;
            }
            assert forall|a: int, b: int| 0 <= a < b < i + 1 implies coord_lt(
                #[trigger] v@.take(i + 1)[a],
                #[trigger] v@.take(i + 1)[b],
            ) by {
                if b < i {
                    assert(v@.take(i as int)[a] == v@[a]);
                    assert(v@.take(i as int)[b] == v@[b]);
                } else if a < i - 1 {
                    assert(v@.take(i as int)[a] == v@[a]);
                    assert(v@.take(i as int)[i - 1] == v@[i - 1]);
                    lemma_coord_order(v@[a], v@[i - 1], v@[b]);
                }
            }
            i = i + 1;
        }
        assert(v@.take(n as int) =~= v@);
        true
    }

    /// Number of distinct coordinates in `v`.
    fn count_distinct(v: &Vec<Coordinate>) -> (r: usize)
        ensures
            r == distinct_count(v@),
    {
        let n = v.len();
        let mut count: usize = 0;
        let mut i: usize = 0;
        while i < n
            invariant
                0 <= i <= n,
                n == v@.len(),
                count == distinct_count(v@.take(i as int)),
                count <= i,
            decreases n - i,
        {
            let mut seen = false;
            let mut j: usize = 0;
            while j < i
                invariant
                    0 <= j <= i < n,
                    n == v@.len(),
                    seen == (exists|k: int| 0 <= k < j && #[trigger] v@[k] == v@[i as int]),
                decreases i - j,
            {
                if v[j].same(&v[i]) {
                    seen = true;
                }
                j = j + 1;
            }
            let ghost t = v@.take(i + 1);
            assert(t.drop_last() =~= v@.take(i as int));
            assert(t.last() == v@[i as int]);
            if seen {
                let ghost k = choose|k: int| 0 <= k < i && #[trigger] v@[k] == v@[i as int];
                assert(t.drop_last()[k] == v@[k]);
            } else {
                assert(!t.drop_last().contains(t.last()));
            }
            if !seen {
                count = count + 1;
            }
            i = i + 1;
        }
        assert(v@.take(n as int) =~= v@);
        count
    }

    /// First position whose coordinate is not before `c`.
    fn lower_bound(v: &Vec<Coordinate>, c: &Coordinate) -> (i: usize)
        requires
            strictly_sorted(v@),
        ensures
            i <= v@.len(),
            forall|k: int| 0 <= k < i ==> coord_lt(#[trigger] v@[k], *c),
            forall|k: int| i <= k < v@.len() ==> !coord_lt(#[trigger] v@[k], *c),
    {
        let mut lo: usize = 0;
        let mut hi: usize = v.len();
        while lo < hi
            invariant
                0 <= lo <= hi <= v@.len(),
                strictly_sorted(v@),
                forall|k: int| 0 <= k < lo ==> coord_lt(#[trigger] v@[k], *c),
                forall|k: int| hi <= k < v@.len() ==> !coord_lt(#[trigger] v@[k], *c),
            decreases hi - lo,
        {
            let mid = lo + (hi - lo) / 2;
            if v[mid].precedes(c) {
                assert forall|k: int| 0 <= k < mid + 1 implies coord_lt(#[trigger] v@[k], *c) by {
                    if k < mid {
                        lemma_coord_order(v@[k], v@[mid as int], *c);
                    }
                }
                lo = mid + 1;
            } else {
                assert forall|k: int| mid <= k < v@.len() implies !coord_lt(#[trigger] v@[k], *c) by {
                    if k > mid {
                        lemma_coord_order(v@[mid as int], v@[k], *c);
                        lemma_coord_order(v@[k], *c, v@[mid as int]);
                    }
                }
                hi = mid;
            }
        }
        lo
    }

    /// First position whose coordinate is after `c`.
    fn upper_bound(v: &Vec<Coordinate>, c: &Coordinate) -> (i: usize)
        requires
            strictly_sorted(v@),
        ensures
            i <= v@.len(),
            forall|k: int| 0 <= k < i ==> !coord_lt(*c, #[trigger] v@[k]),
            forall|k: int| i <= k < v@.len() ==> coord_lt(*c, #[trigger] v@[k]),
    {
        let mut lo: usize = 0;
        let mut hi: usize = v.len();
        while lo < hi
            invariant
                0 <= lo <= hi <= v@.len(),
                strictly_sorted(v@),
                forall|k: int| 0 <= k < lo ==> !coord_lt(*c, #[trigger] v@[k]),
                forall|k: int| hi <= k < v@.len() ==> coord_lt(*c, #[trigger] v@[k]),
            decreases hi - lo,
        {
            let mid = lo + (hi - lo) / 2;
            if c.precedes(&v[mid]) {
                assert forall|k: int| mid <= k < v@.len() implies coord_lt(*c, #[trigger] v@[k]) by {
                    if k > mid {
                        lemma_coord_order(*c, v@[mid as int], v@[k]);
                    }
                }
                hi = mid;
            } else {
                assert forall|k: int| 0 <= k < mid + 1 implies !coord_lt(*c, #[trigger] v@[k]) by {
                    if k < mid {
                        lemma_coord_order(*c, v@[k], v@[mid as int]);
                    }
                }
                lo = mid + 1;
            }
        }
        lo
    }

    /// The byte span of the scroll at `coord`, if it has content.
    pub fn get(&self, coord: &Coordinate) -> (r: Option<&ScrollSpan>)
        ensures
            match r {
                Some(sp) => lookup(self@, *coord) == Some(*sp) && sp.start <= sp.end <= self.spec_buffer_len(),
                None => lookup(self@, *coord) is None,
            },
    {
        proof {
            use_type_invariant(self);
        }
        let ghost e = self@;
        let n = self.ordered.len();
        if self.sorted {
            let i = Self::lower_bound(&self.ordered, coord);
            if i < n && self.ordered[i].same(coord) {
                proof {
                    assert forall|k: int| i + 1 <= k < e.len() implies (#[trigger] e[k]).0 != *coord by {
                        assert(coord_lt(self.ordered@[i as int], self.ordered@[k]));
                    }
                    lemma_lookup_skip_tail(e, *coord, i + 1);
                    let t = e.take(i + 1);
                    assert(t.last() == e[i as int]);
                }
                return Some(&self.spans[i]);
            }
            proof {
                assert forall|k: int| 0 <= k < e.len() implies (#[trigger] e[k]).0 != *coord by {
                    if k < i {
                        assert(coord_lt(self.ordered@[k], *coord));
                    } else if k > i {
                        assert(coord_lt(self.ordered@[i as int], self.ordered@[k]));
                    }
                }
                lemma_lookup_skip_tail(e, *coord, 0);
            }
            return None;
        }
        let mut j: usize = n;
        while j > 0
            invariant
                0 <= j <= n,
                n == self.ordered@.len(),
                e == self@,
                e.len() == n,
                self.ordered@.len() == self.spans@.len(),
                forall|k: int| j <= k < n ==> (#[trigger] e[k]).0 != *coord,
                forall|i: int|
                    0 <= i < self.spans@.len() ==> (#[trigger] self.spans@[i]).start <= self.spans@[i].end
                        <= self.buffer_len,
            decreases j,
        {
            if self.ordered[j - 1].same(coord) {
                proof {
                    lemma_lookup_skip_tail(e, *coord, j as int);
                    let t = e.take(j as int);
                    assert(t.last() == e[j - 1]);
                }
                return Some(&self.spans[j - 1]);
            }
            j = j - 1;
        }
        proof {
            lemma_lookup_skip_tail(e, *coord, 0);
        }
        None
    }

    /// Whether the scroll at `coord` has content.
    pub fn contains(&self, coord: &Coordinate) -> (r: bool)
        ensures
            r == (lookup(self@, *coord) is Some),
    {
        self.get(coord).is_some()
    }

    /// Number of distinct populated coordinates.
    pub fn scroll_count(&self) -> (r: usize)
        ensures
            r == distinct_count(coords_of(self@)),
    {
        proof {
            use_type_invariant(self);
            assert(coords_of(self@) =~= self.ordered@);
        }
        self.distinct
    }

    /// Size of the indexed buffer in bytes.
    pub fn buffer_len(&self) -> (r: usize)
        ensures
            r == self.spec_buffer_len(),
    {
        self.buffer_len
    }

    /// All recorded coordinates, in document order.
    pub fn coordinates(&self) -> (r: &[Coordinate])
        ensures
            r@ == coords_of(self@),
    {
        proof {
            use_type_invariant(self);
            assert(coords_of(self@) =~= self.ordered@);
        }
        self.ordered.as_slice()
    }

    /// The first populated coordinate after `coord` in document order.
    pub fn next_populated(&self, coord: &Coordinate) -> (r: Option<Coordinate>)
        ensures
            is_next_after(coords_of(self@), *coord, r),
    {
        proof {
            use_type_invariant(self);
            assert(coords_of(self@) =~= self.ordered@);
        }
        let v = &self.ordered;
        let n = v.len();
        if self.sorted {
            let i = Self::upper_bound(v, coord);
            if i < n {
                proof {
                    assert(v@.contains(v@[i as int]));
                    assert forall|k: int| 0 <= k < v@.len() && coord_lt(*coord, #[trigger] v@[k]) implies !coord_lt(v@[k], v@[i as int]) by {
                        if k > i {
                            assert(coord_lt(v@[i as int], v@[k]));
                            lemma_coord_order(v@[i as int], v@[k], v@[k]);
                        }
                    }
                }
                return Some(v[i]);
            }
            return None;
        }
        let mut best: Option<Coordinate> = None;
        let mut j: usize = 0;
        while j < n
            invariant
                0 <= j <= n,
                n == v@.len(),
                is_next_after(v@.take(j as int), *coord, best),
            decreases n - j,
        {
            let x = v[j];
            let ghost old_best = best;
            if coord.precedes(&x) {
                match best {
                    None => {
                        best = Some(x);
                    },
                    Some(b) => {
                        if x.precedes(&b) {
                            best = Some(x);
                        }
                    },
                }
            }
            proof {
                let t = v@.take(j + 1);
                assert(t =~= v@.take(j as int).push(x));
                assert(t[j as int] == x);
                match best {
                    Some(y) => {
                        if y == x {
                            assert(t.contains(x));
                        } else {
                            let k = choose|k: int| 0 <= k < j && v@.take(j as int)[k] == y;
                            assert(t[k] == y);
                        }
                        assert forall|k: int| 0 <= k < t.len() && coord_lt(*coord, #[trigger] t[k]) implies !coord_lt(t[k], y) by {
                            if k < j {
                                assert(t[k] == v@.take(j as int)[k]);
                                if let Some(b) = old_best {
                                    lemma_coord_order(t[k], b, y);
                                    lemma_coord_order(t[k], x, b);
                                }
                            } else {
                                lemma_coord_order(x, y, *coord);
                            }
                        }
                    },
                    None => {
                        assert forall|k: int| 0 <= k < t.len() implies !coord_lt(*coord, #[trigger] t[k]) by {
                            if k < j {
                                assert(t[k] == v@.take(j as int)[k]);
                            }
                        }
                    },
                }
            }
            j = j + 1;
        }
        assert(v@.take(n as int) =~= v@);
        best
    }

    /// The last populated coordinate before `coord` in document order.
    pub fn prev_populated(&self, coord: &Coordinate) -> (r: Option<Coordinate>)
        ensures
            is_prev_before(coords_of(self@), *coord, r),
    {
        proof {
            use_type_invariant(self);
            assert(coords_of(self@) =~= self.ordered@);
        }
        let v = &self.ordered;
        let n = v.len();
        if self.sorted {
            let i = Self::lower_bound(v, coord);
            if i > 0 {
                proof {
                    assert(v@.contains(v@[i - 1]));
                    assert forall|k: int| 0 <= k < v@.len() && coord_lt(#[trigger] v@[k], *coord) implies !coord_lt(v@[i - 1], v@[k]) by {
                        if k < i - 1 {
                            assert(coord_lt(v@[k], v@[i - 1]));
                            lemma_coord_order(v@[k], v@[i - 1], v@[k]);
                        }
                    }
                }
                return Some(v[i - 1]);
            }
            return None;
        }
        let mut best: Option<Coordinate> = None;
        let mut j: usize = 0;
        while j < n
            invariant
                0 <= j <= n,
                n == v@.len(),
                is_prev_before(v@.take(j as int), *coord, best),
            decreases n - j,
        {
            let x = v[j];
            let ghost old_best = best;
            if x.precedes(coord) {
                match best {
                    None => {
                        best = Some(x);
                    },
                    Some(b) => {
                        if b.precedes(&x) {
                            best = Some(x);
                        }
                    },
                }
            }
            proof {
                let t = v@.take(j + 1);
                assert(t =~= v@.take(j as int).push(x));
                assert(t[j as int] == x);
                match best {
                    Some(y) => {
                        if y == x {
                            assert(t.contains(x));
                        } else {
                            let k = choose|k: int| 0 <= k < j && v@.take(j as int)[k] == y;
                            assert(t[k] == y);
                        }
                        assert forall|k: int| 0 <= k < t.len() && coord_lt(#[trigger] t[k], *coord) implies !coord_lt(y, t[k]) by {
                            if k < j {
                                assert(t[k] == v@.take(j as int)[k]);
                                if let Some(b) = old_best {
                                    lemma_coord_order(y, b, t[k]);
                                    lemma_coord_order(b, x, t[k]);
                                }
                            } else {
                                lemma_coord_order(x, y, *coord);
                            }
                        }
                    },
                    None => {
                        assert forall|k: int| 0 <= k < t.len() implies !coord_lt(#[trigger] t[k], *coord) by {
                            if k < j {
                                assert(t[k] == v@.take(j as int)[k]);
                            }
                        }
                    },
                }
            }
            j = j + 1;
        }
        assert(v@.take(n as int) =~= v@);
        best
    }

    /// The populated coordinates, in document order, that `predicate`
    /// accepts.
    pub fn coordinates_matching<F>(&self, predicate: F) -> (r: Vec<Coordinate>)
        where
            F: Fn(&Coordinate) -> bool,
        requires
            forall|c: &Coordinate| #[trigger] predicate.requires((c,)),
        ensures
            exists|keep: Seq<bool>|
                {
                    &&& keep.len() == self@.len()
                    &&& forall|i: int|
                        0 <= i < keep.len() ==> predicate.ensures(
                            (&coords_of(self@)[i],),
                            #[trigger] keep[i],
                        )
                    &&& r@ == filter_by(coords_of(self@), keep)
                },
    {
        proof {
            use_type_invariant(self);
            assert(coords_of(self@) =~= self.ordered@);
        }
        let v = &self.ordered;
        let n = v.len();
        let mut out: Vec<Coordinate> = Vec::new();
        let ghost mut keep: Seq<bool> = Seq::empty();
        let mut i: usize = 0;
        while i < n
            invariant
                0 <= i <= n,
                n == v@.len(),
                forall|c: &Coordinate| #[trigger] predicate.requires((c,)),
                keep.len() == i,
                forall|k: int| 0 <= k < i ==> predicate.ensures((&v@[k],), #[trigger] keep[k]),
                out@ == filter_by(v@.take(i as int), keep),
            decreases n - i,
        {
            let c = &v[i];
            let b = predicate(c);
            if b {
                out.push(*c);
            }
            proof {
                let t = v@.take(i + 1);
                assert(t.drop_last() =~= v@.take(i as int));
                let old_keep = keep;
                keep = keep.push(b);
                assert(keep.drop_last() =~= old_keep);
                assert(t.last() == *c);
                assert(filter_by(t, keep) == (if b { filter_by(v@.take(i as int), old_keep).push(*c) } else { filter_by(v@.take(i as int), old_keep) }));
            }
            i = i + 1;
        }
        assert(v@.take(n as int) =~= v@);
        out
    }

    /// The distinct values that populated coordinates take in `dim`, in
    /// increasing order.
    pub fn dimension_extent(&self, dim: Dimension) -> (r: Vec<usize>)
        ensures
            increasing(r@),
            forall|x: usize|
                r@.contains(x) <==> exists|i: int|
                    0 <= i < self@.len() && dim_val(#[trigger] coords_of(self@)[i], dim) == x,
    {
        proof {
            use_type_invariant(self);
            assert(coords_of(self@) =~= self.ordered@);
        }
        let v = &self.ordered;
        let n = v.len();
        let mut values: Vec<usize> = Vec::new();
        let mut i: usize = 0;
        while i < n
            invariant
                0 <= i <= n,
                n == v@.len(),
                increasing(values@),
                forall|x: usize|
                    values@.contains(x) <==> exists|k: int|
                        0 <= k < i && dim_val(#[trigger] v@[k], dim) == x,
            decreases n - i,
        {
            let x = v[i].dimension_value(dim);
            insert_sorted_unique(&mut values, x);
            proof {
                assert forall|y: usize|
                    values@.contains(y) <==> exists|k: int|
                        0 <= k < i + 1 && dim_val(#[trigger] v@[k], dim) == y by {
                    if values@.contains(y) && y != x {
                        assert(exists|k: int| 0 <= k < i && dim_val(#[trigger] v@[k], dim) == y);
                    }
                    if y == x {
                        assert(dim_val(v@[i as int], dim) == y);
                    }
                }
            }
            i = i + 1;
        }
        values
    }
}

/// The elements of `s` whose flag in `keep` is set, in order.
pub open spec fn filter_by<A>(s: Seq<A>, keep: Seq<bool>) -> Seq<A>
    decreases s.len(),
{
    if s.len() == 0 || keep.len() == 0 {
        seq![]
    } else {
        let rest = filter_by(s.drop_last(), keep.drop_last());
        if keep.last() {
            rest.push(s.last())
        } else {
            rest
        }
    }
}

/// Strictly increasing values.
pub open spec fn increasing(s: Seq<usize>) -> bool {
    forall|i: int, j: int| 0 <= i < j < s.len() ==> #[trigger] s[i] < #[trigger] s[j]
}

/// Adds `x` to a strictly increasing list unless it is already there.
pub fn insert_sorted_unique(v: &mut Vec<usize>, x: usize)
    requires
        increasing(old(v)@),
    ensures
        increasing(final(v)@),
        forall|y: usize| final(v)@.contains(y) <==> (old(v)@.contains(y) || y == x),
{
    let n = v.len();
    if n == 0 || v[n - 1] < x {
        v.push(x);
        proof {
            assert forall|y: usize| v@.contains(y) <==> (old(v)@.contains(y) || y == x) by {
                if v@.contains(y) {
                    let k = choose|k: int| 0 <= k < v@.len() && v@[k] == y;
                    if k < n {
                        assert(old(v)@[k] == y);
                    }
                }
                if old(v)@.contains(y) {
                    let k = choose|k: int| 0 <= k < n && old(v)@[k] == y;
                    assert(v@[k] == y);
                }
                if y == x {
                    assert(v@[n as int] == y);
                }
            }
        }
        return;
    }
    let mut lo: usize = 0;
    let mut hi: usize = n;
    while lo < hi
        invariant
            0 <= lo <= hi <= n,
            n == v@.len(),
            v@ == old(v)@,
            increasing(v@),
            forall|k: int| 0 <= k < lo ==> #[trigger] v@[k] < x,
            forall|k: int| hi <= k < n ==> #[trigger] v@[k] >= x,
        decreases hi - lo,
    {
        let mid = lo + (hi - lo) / 2;
        if v[mid] < x {
            lo = mid + 1;
        } else {
            hi = mid;
        }
    }
    if lo < n && v[lo] == x {
        return;
    }
    v.insert(lo, x);
    proof {
        assert forall|a: int, b: int| 0 <= a < b < v@.len() implies #[trigger] v@[a] < #[trigger] v@[b] by {
            if b < lo {
                assert(v@[a] == old(v)@[a] && v@[b] == old(v)@[b]);
            } else if b == lo {
                assert(v@[a] == old(v)@[a]);
            } else if a == lo {
                assert(v@[b] == old(v)@[b - 1]);
            } else if a < lo {
                assert(v@[a] == old(v)@[a] && v@[b] == old(v)@[b - 1]);
            } else {
                assert(v@[a] == old(v)@[a - 1] && v@[b] == old(v)@[b - 1]);
            }
        }
        assert forall|y: usize| v@.contains(y) <==> (old(v)@.contains(y) || y == x) by {
            if v@.contains(y) {
                let k = choose|k: int| 0 <= k < v@.len() && v@[k] == y;
                if k < lo {
                    assert(old(v)@[k] == y);
                } else if k > lo {
                    assert(old(v)@[k - 1] == y);
                }
            }
            if old(v)@.contains(y) {
                let k = choose|k: int| 0 <= k < n && old(v)@[k] == y;
                if k < lo {
                    assert(v@[k] == y);
                } else {
                    assert(v@[k + 1] == y);
                }
            }
            if y == x {
                assert(v@[lo as int] == y);
            }
        }
    }
}

} // verus!
