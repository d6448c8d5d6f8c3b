//! The nine-dimensional phext coordinate.
//!
//! A coordinate has three arms of three values each:
//! `library.shelf.series / collection.volume.book / chapter.section.scroll`.
//! Coordinates are ordered lexicographically from the library (outermost)
//! down to the scroll (innermost), which is also document order.
use vstd::prelude::*;

use vstd::utf8::encode_utf8;

use crate::coordinate_ext::{Dimension, broken};

verus! {

/// Smallest value a dimension takes in a well-formed address.
pub const COORDINATE_MINIMUM: usize = 1;

/// Largest value a dimension takes in a well-formed address.
pub const COORDINATE_MAXIMUM: usize = 1000;

/// The large-scale Z arm: library, shelf, series.
#[derive(Debug, Clone, Copy, PartialEq, Eq, Structural, Hash, PartialOrd, Ord)]
pub struct ZCoordinate {
    pub library: usize,
    pub shelf: usize,
    pub series: usize,
}

/// The middle Y arm: collection, volume, book.
#[derive(Debug, Clone, Copy, PartialEq, Eq, Structural, Hash, PartialOrd, Ord)]
pub struct YCoordinate {
    pub collection: usize,
    pub volume: usize,
    pub book: usize,
}

/// The small-scale X arm: chapter, section, scroll.
#[derive(Debug, Clone, Copy, PartialEq, Eq, Structural, Hash, PartialOrd, Ord)]
pub struct XCoordinate {
    pub chapter: usize,
    pub section: usize,
    pub scroll: usize,
}

/// A full phext address.
#[derive(Debug, Clone, Copy, PartialEq, Eq, Structural, Hash, PartialOrd, Ord)]
pub struct Coordinate {
    pub z: ZCoordinate,
    pub y: YCoordinate,
    pub x: XCoordinate,
}

impl ZCoordinate {
    pub fn new() -> (r: ZCoordinate)
        ensures
            r == (ZCoordinate { library: 1, shelf: 1, series: 1 }),
    {
        ZCoordinate { library: 1, shelf: 1, series: 1 }
    }
}

impl YCoordinate {
    pub fn new() -> (r: YCoordinate)
        ensures
            r == (YCoordinate { collection: 1, volume: 1, book: 1 }),
    {
        YCoordinate { collection: 1, volume: 1, book: 1 }
    }
}

impl XCoordinate {
    pub fn new() -> (r: XCoordinate)
        ensures
            r == (XCoordinate { chapter: 1, section: 1, scroll: 1 }),
    {
        XCoordinate { chapter: 1, section: 1, scroll: 1 }
    }
}

/// The origin `1.1.1/1.1.1/1.1.1`.
pub open spec fn base_coordinate() -> Coordinate {
    Coordinate {
        z: ZCoordinate { library: 1, shelf: 1, series: 1 },
        y: YCoordinate { collection: 1, volume: 1, book: 1 },
        x: XCoordinate { chapter: 1, section: 1, scroll: 1 },
    }
}

/// The value of a coordinate at position `i` counted from the outermost
/// dimension: 0 is the library, 8 is the scroll.
pub open spec fn nth_value(c: Coordinate, i: int) -> usize {
    if i == 0 {
        c.z.library
    } else if i == 1 {
        c.z.shelf
    } else if i == 2 {
        c.z.series
    } else if i == 3 {
        c.y.collection
    } else if i == 4 {
        c.y.volume
    } else if i == 5 {
        c.y.book
    } else if i == 6 {
        c.x.chapter
    } else if i == 7 {
        c.x.section
    } else {
        c.x.scroll
    }
}

/// Lexicographic order on three values.
pub open spec fn lex3_lt(a1: usize, a2: usize, a3: usize, b1: usize, b2: usize, b3: usize) -> bool {
    a1 < b1 || (a1 == b1 && (a2 < b2 || (a2 == b2 && a3 < b3)))
}

/// Document order: `a` comes strictly before `b`.
pub open spec fn coord_lt(a: Coordinate, b: Coordinate) -> bool {
    lex3_lt(a.z.library, a.z.shelf, a.z.series, b.z.library, b.z.shelf, b.z.series) || (a.z
        == b.z && (lex3_lt(
        a.y.collection,
        a.y.volume,
        a.y.book,
        b.y.collection,
        b.y.volume,
        b.y.book,
    ) || (a.y == b.y && lex3_lt(
        a.x.chapter,
        a.x.section,
        a.x.scroll,
        b.x.chapter,
        b.x.section,
        b.x.scroll,
    ))))
}

/// Document order, reflexive.
pub open spec fn coord_le(a: Coordinate, b: Coordinate) -> bool {
    coord_lt(a, b) || a == b
}

/// Document order is a strict total order.
pub proof fn lemma_coord_order(a: Coordinate, b: Coordinate, c: Coordinate)
    ensures
        !coord_lt(a, a),
        coord_lt(a, b) ==> !coord_lt(b, a),
        coord_lt(a, b) && coord_lt(b, c) ==> coord_lt(a, c),
        coord_lt(a, b) || coord_lt(b, a) || a == b,
{
}

/// A sequence of coordinates that is strictly increasing in document order.
pub open spec fn strictly_sorted(s: Seq<Coordinate>) -> bool {
    forall|i: int, j: int| 0 <= i < j < s.len() ==> coord_lt(#[trigger] s[i], #[trigger] s[j])
}

/// Adds `x` to a strictly increasing list of coordinates unless it is
/// already there.
pub fn insert_coordinate_sorted(v: &mut Vec<Coordinate>, x: Coordinate)
    requires
        strictly_sorted(old(v)@),
    ensures
        strictly_sorted(final(v)@),
        forall|y: Coordinate| final(v)@.contains(y) <==> (old(v)@.contains(y) || y == x),
{
    let n = v.len();
    if n == 0 || v[n - 1].precedes(&x) {
        v.push(x);
        proof {
            assert forall|a: int, b: int| 0 <= a < b < v@.len() implies coord_lt(#[trigger] v@[a], #[trigger] v@[b]) by {
                if b == n {
                    if a < n - 1 {
                        lemma_coord_order(v@[a], v@[n - 1], x);
                    }
                } else {
                    assert(v@[a] == old(v)@[a] && v@[b] == old(v)@[b]);
                }
            }
            assert forall|y: Coordinate| v@.contains(y) <==> (old(v)@.contains(y) || y == x) by {
                if v@.contains(y) {
                    let k = choose|k: int| 0 <= k < v@.len() && v@[k] == y;
                    if k < n {
                        assert(old(v)@[k] == y);
                    }
                }
                if old(v)@.contains(y) {
                    let k = choose|k: int| 0 <= k < n && old(v)@[k] == y;
                    assert(v@[k] == y);
                }
                if y == x {
                    assert(v@[n as int] == y);
                }
            }
        }
        return;
    }
    let mut lo: usize = 0;
    let mut hi: usize = n;
    while lo < hi
        invariant
            0 <= lo <= hi <= n,
            n == v@.len(),
            v@ == old(v)@,
            strictly_sorted(v@),
            forall|k: int| 0 <= k < lo ==> coord_lt(#[trigger] v@[k], x),
            forall|k: int| hi <= k < n ==> !coord_lt(#[trigger] v@[k], x),
        decreases hi - lo,
    {
        let mid = lo + (hi - lo) / 2;
        if v[mid].precedes(&x) {
            assert forall|k: int| 0 <= k < mid + 1 implies coord_lt(#[trigger] v@[k], x) by {
                if k < mid {
                    lemma_coord_order(v@[k], v@[mid as int], x);
                }
            }
            lo = mid + 1;
        } else {
            assert forall|k: int| mid <= k < n implies !coord_lt(#[trigger] v@[k], x) by {
                if k > mid {
                    lemma_coord_order(v@[mid as int], v@[k], x);
                    lemma_coord_order(v@[k], x, v@[mid as int]);
                }
            }
            hi = mid;
        }
    }
    if lo < n && v[lo].same(&x) {
        return;
    }
    v.insert(lo, x);
    proof {
        assert forall|a: int, b: int| 0 <= a < b < v@.len() implies coord_lt(#[trigger] v@[a], #[trigger] v@[b]) by {
            if b < lo {
                assert(v@[a] == old(v)@[a] && v@[b] == old(v)@[b]);
            } else if b == lo {
                assert(v@[a] == old(v)@[a]);
            } else if a == lo {
                assert(v@[b] == old(v)@[b - 1]);
                lemma_coord_order(x, old(v)@[b - 1], x);
            } else if a < lo {
                assert(v@[a] == old(v)@[a] && v@[b] == old(v)@[b - 1]);
            } else {
                assert(v@[a] == old(v)@[a - 1] && v@[b] == old(v)@[b - 1]);
            }
        }
        assert forall|y: Coordinate| v@.contains(y) <==> (old(v)@.contains(y) || y == x) by {
            if v@.contains(y) {
                let k = choose|k: int| 0 <= k < v@.len() && v@[k] == y;
                if k < lo {
                    assert(old(v)@[k] == y);
                } else if k > lo {
                    assert(old(v)@[k - 1] == y);
                }
            }
            if old(v)@.contains(y) {
                let k = choose|k: int| 0 <= k < n && old(v)@[k] == y;
                if k < lo {
                    assert(v@[k] == y);
                } else {
                    assert(v@[k + 1] == y);
                }
            }
            if y == x {
                assert(v@[lo as int] == y);
            }
        }
    }
}

/// The decimal digits of `n`, as ASCII bytes.
pub open spec fn decimal(n: nat) -> Seq<u8>
    decreases n,
{
    if n < 10 {
        seq![(n + 48) as u8]
    } else {
        decimal(n / 10).push(((n % 10) + 48) as u8)
    }
}

/// The canonical text of a coordinate, `a.b.c/d.e.f/g.h.i`, as bytes.
pub open spec fn coordinate_text(c: Coordinate) -> Seq<u8> {
    decimal(c.z.library as nat) + seq![46u8] + decimal(c.z.shelf as nat) + seq![46u8] + decimal(
        c.z.series as nat,
    ) + seq![47u8] + decimal(c.y.collection as nat) + seq![46u8] + decimal(c.y.volume as nat)
        + seq![46u8] + decimal(c.y.book as nat) + seq![47u8] + decimal(c.x.chapter as nat) + seq![
        46u8,
    ] + decimal(c.x.section as nat) + seq![46u8] + decimal(c.x.scroll as nat)
}

impl Coordinate {
    /// The origin `1.1.1/1.1.1/1.1.1`.
    pub fn new() -> (r: Coordinate)
        ensures
            r == base_coordinate(),
    {
        Coordinate { z: ZCoordinate::new(), y: YCoordinate::new(), x: XCoordinate::new() }
    }

    /// Whether `self` comes strictly before `other` in document order.
    pub fn precedes(&self, other: &Coordinate) -> (r: bool)
        ensures
            r == coord_lt(*self, *other),
    {
        if self.z.library != other.z.library {
            return self.z.library < other.z.library;
        }
        if self.z.shelf != other.z.shelf {
            return self.z.shelf < other.z.shelf;
        }
        if self.z.series != other.z.series {
            return self.z.series < other.z.series;
        }
        if self.y.collection != other.y.collection {
            return self.y.collection < other.y.collection;
        }
        if self.y.volume != other.y.volume {
            return self.y.volume < other.y.volume;
        }
        if self.y.book != other.y.book {
            return self.y.book < other.y.book;
        }
        if self.x.chapter != other.x.chapter {
            return self.x.chapter < other.x.chapter;
        }
        if self.x.section != other.x.section {
            return self.x.section < other.x.section;
        }
        self.x.scroll < other.x.scroll
    }

    /// Whether two coordinates name the same address.
    pub fn same(&self, other: &Coordinate) -> (r: bool)
        ensures
            r == (*self == *other),
    {
        self.z.library == other.z.library && self.z.shelf == other.z.shelf && self.z.series
            == other.z.series && self.y.collection == other.y.collection && self.y.volume
            == other.y.volume && self.y.book == other.y.book && self.x.chapter == other.x.chapter
            && self.x.section == other.x.section && self.x.scroll == other.x.scroll
    }

    /// Crosses a scroll delimiter: the scroll advances by one (staying put
    /// once the next value would reach the maximum) and every finer dimension
    /// returns to 1.
    pub fn scroll_break(&mut self)
        requires
            old(self).dim_value_spec(Dimension::Scroll) < usize::MAX,
        ensures
            *final(self) == broken(*old(self), Dimension::Scroll),
    {
        *self = self.advanced(Dimension::Scroll);
    }

    /// Crosses a section delimiter: the section advances by one (staying put
    /// once the next value would reach the maximum) and every finer dimension
    /// returns to 1.
    pub fn section_break(&mut self)
        requires
            old(self).dim_value_spec(Dimension::Section) < usize::MAX,
        ensures
            *final(self) == broken(*old(self), Dimension::Section),
    {
        *self = self.advanced(Dimension::Section);
    }

    /// Crosses a chapter delimiter: the chapter advances by one (staying put
    /// once the next value would reach the maximum) and every finer dimension
    /// returns to 1.
    pub fn chapter_break(&mut self)
        requires
            old(self).dim_value_spec(Dimension::Chapter) < usize::MAX,
        ensures
            *final(self) == broken(*old(self), Dimension::Chapter),
    {
        *self = self.advanced(Dimension::Chapter);
    }

    /// Crosses a book delimiter: the book advances by one (staying put
    /// once the next value would reach the maximum) and every finer dimension
    /// returns to 1.
    pub fn book_break(&mut self)
        requires
            old(self).dim_value_spec(Dimension::Book) < usize::MAX,
        ensures
            *final(self) == broken(*old(self), Dimension::Book),
    {
        *self = self.advanced(Dimension::Book);
    }

    /// Crosses a volume delimiter: the volume advances by one (staying put
    /// once the next value would reach the maximum) and every finer dimension
    /// returns to 1.
    pub fn volume_break(&mut self)
        requires
            old(self).dim_value_spec(Dimension::Volume) < usize::MAX,
        ensures
            *final(self) == broken(*old(self), Dimension::Volume),
    {
        *self = self.advanced(Dimension::Volume);
    }

    /// Crosses a collection delimiter: the collection advances by one (staying put
    /// once the next value would reach the maximum) and every finer dimension
    /// returns to 1.
    pub fn collection_break(&mut self)
        requires
            old(self).dim_value_spec(Dimension::Collection) < usize::MAX,
        ensures
            *final(self) == broken(*old(self), Dimension::Collection),
    {
        *self = self.advanced(Dimension::Collection);
    }

    /// Crosses a series delimiter: the series advances by one (staying put
    /// once the next value would reach the maximum) and every finer dimension
    /// returns to 1.
    pub fn series_break(&mut self)
        requires
            old(self).dim_value_spec(Dimension::Series) < usize::MAX,
        ensures
            *final(self) == broken(*old(self), Dimension::Series),
    {
        *self = self.advanced(Dimension::Series);
    }

    /// Crosses a shelf delimiter: the shelf advances by one (staying put
    /// once the next value would reach the maximum) and every finer dimension
    /// returns to 1.
    pub fn shelf_break(&mut self)
        requires
            old(self).dim_value_spec(Dimension::Shelf) < usize::MAX,
        ensures
            *final(self) == broken(*old(self), Dimension::Shelf),
    {
        *self = self.advanced(Dimension::Shelf);
    }

    /// Crosses a library delimiter: the library advances by one (staying put
    /// once the next value would reach the maximum) and every finer dimension
    /// returns to 1.
    pub fn library_break(&mut self)
        requires
            old(self).dim_value_spec(Dimension::Library) < usize::MAX,
        ensures
            *final(self) == broken(*old(self), Dimension::Library),
    {
        *self = self.advanced(Dimension::Library);
    }

    /// The canonical text of this coordinate, as the phext library prints it.
    pub fn display(&self) -> (s: String)
        ensures
            encode_utf8(s@) == coordinate_text(*self),
    {
        format_coordinate(self)
    }
}

/// The origin `1.1.1/1.1.1/1.1.1`.
pub fn default_coordinate() -> (r: Coordinate)
    ensures
        r == base_coordinate(),
{
    Coordinate::new()
}

/// Formats a coordinate with the `Display` impl of the phext library's own
/// coordinate type. Claimed: the text is the nine values in decimal, joined
/// by `.` within an arm and `/` between arms (the impl writes
/// `"{}.{}.{}"` per arm and `"{}/{}/{}"` for the whole).
#[verifier::external_body]
fn format_coordinate(c: &Coordinate) -> (s: String)
    ensures
        encode_utf8(s@) == coordinate_text(*c),
{
    let p = libphext::phext::Coordinate {
        z: libphext::phext::ZCoordinate { library: c.z.library, shelf: c.z.shelf, series: c.z.series },
        y: libphext::phext::YCoordinate { collection: c.y.collection, volume: c.y.volume, book: c.y.book },
        x: libphext::phext::XCoordinate { chapter: c.x.chapter, section: c.x.section, scroll: c.x.scroll },
    };
    format!("{}", p)
}

} // verus!
