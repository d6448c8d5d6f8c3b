//! Dimensions and dimensional navigation over coordinates.
//!
//! A delimiter advances one dimension and resets every finer one to 1.
//! Navigation offers the same step forward, a step backward, and direct
//! reads and writes of one dimension's value.
use vstd::prelude::*;

use crate::coordinate::{
    Coordinate, XCoordinate, YCoordinate, ZCoordinate, COORDINATE_MAXIMUM, COORDINATE_MINIMUM,
    coord_lt, nth_value,
};

verus! {

/// The nine phext dimensions, from the scroll (innermost, key 1) to the
/// library (outermost, key 9).
#[derive(Debug, Clone, Copy, PartialEq, Eq, Structural, Hash)]
pub enum Dimension {
    Scroll,
    Section,
    Chapter,
    Book,
    Volume,
    Collection,
    Series,
    Shelf,
    Library,
}

/// The key of a dimension: 1 for the scroll up to 9 for the library.
pub open spec fn rank(d: Dimension) -> int {
    match d {
        Dimension::Scroll => 1,
        Dimension::Section => 2,
        Dimension::Chapter => 3,
        Dimension::Book => 4,
        Dimension::Volume => 5,
        Dimension::Collection => 6,
        Dimension::Series => 7,
        Dimension::Shelf => 8,
        Dimension::Library => 9,
    }
}

/// The dimension with key `i`, for `1 <= i <= 9`.
pub open spec fn dimension_of_rank(i: int) -> Dimension {
    if i == 1 {
        Dimension::Scroll
    } else if i == 2 {
        Dimension::Section
    } else if i == 3 {
        Dimension::Chapter
    } else if i == 4 {
        Dimension::Book
    } else if i == 5 {
        Dimension::Volume
    } else if i == 6 {
        Dimension::Collection
    } else if i == 7 {
        Dimension::Series
    } else if i == 8 {
        Dimension::Shelf
    } else {
        Dimension::Library
    }
}

/// The delimiter byte that crosses dimension `d`.
pub open spec fn delimiter_of(d: Dimension) -> u8 {
    match d {
        Dimension::Scroll => 0x17u8,
        Dimension::Section => 0x18u8,
        Dimension::Chapter => 0x19u8,
        Dimension::Book => 0x1Au8,
        Dimension::Volume => 0x1Cu8,
        Dimension::Collection => 0x1Du8,
        Dimension::Series => 0x1Eu8,
        Dimension::Shelf => 0x1Fu8,
        Dimension::Library => 0x01u8,
    }
}

/// The value of coordinate `c` in dimension `d`.
pub open spec fn dim_val(c: Coordinate, d: Dimension) -> usize {
    nth_value(c, 9 - rank(d))
}

/// `c` with the value of dimension `d` replaced by `v`; nothing else changes.
pub open spec fn with_val(c: Coordinate, d: Dimension, v: usize) -> Coordinate {
    match d {
        Dimension::Scroll => Coordinate { x: XCoordinate { scroll: v, ..c.x }, ..c },
        Dimension::Section => Coordinate { x: XCoordinate { section: v, ..c.x }, ..c },
        Dimension::Chapter => Coordinate { x: XCoordinate { chapter: v, ..c.x }, ..c },
        Dimension::Book => Coordinate { y: YCoordinate { book: v, ..c.y }, ..c },
        Dimension::Volume => Coordinate { y: YCoordinate { volume: v, ..c.y }, ..c },
        Dimension::Collection => Coordinate { y: YCoordinate { collection: v, ..c.y }, ..c },
        Dimension::Series => Coordinate { z: ZCoordinate { series: v, ..c.z }, ..c },
        Dimension::Shelf => Coordinate { z: ZCoordinate { shelf: v, ..c.z }, ..c },
        Dimension::Library => Coordinate { z: ZCoordinate { library: v, ..c.z }, ..c },
    }
}

/// `c` with every dimension finer than `d` set to 1.
pub open spec fn reset_below(c: Coordinate, d: Dimension) -> Coordinate {
    Coordinate {
        z: ZCoordinate {
            library: c.z.library,
            shelf: if rank(d) > 8 { 1 } else { c.z.shelf },
            series: if rank(d) > 7 { 1 } else { c.z.series },
        },
        y: YCoordinate {
            collection: if rank(d) > 6 { 1 } else { c.y.collection },
            volume: if rank(d) > 5 { 1 } else { c.y.volume },
            book: if rank(d) > 4 { 1 } else { c.y.book },
        },
        x: XCoordinate {
            chapter: if rank(d) > 3 { 1 } else { c.x.chapter },
            section: if rank(d) > 2 { 1 } else { c.x.section },
            scroll: if rank(d) > 1 { 1 } else { c.x.scroll },
        },
    }
}

/// One step of a delimiter value: `v + 1`, unless that reaches the maximum.
pub open spec fn advance_value(v: usize) -> usize {
    if v + 1 < COORDINATE_MAXIMUM {
        (v + 1) as usize
    } else {
        v
    }
}

/// The coordinate after crossing the delimiter of dimension `d`.
pub open spec fn broken(c: Coordinate, d: Dimension) -> Coordinate {
    reset_below(with_val(c, d, advance_value(dim_val(c, d))), d)
}

/// The smallest dimension value, in specifications.
pub const COORDINATE_MINIMUM_VALUE: usize = 1;

/// `v` clamped into `[COORDINATE_MINIMUM, COORDINATE_MAXIMUM]`.
pub open spec fn clamp_value(v: usize) -> usize {
    if v < COORDINATE_MINIMUM {
        COORDINATE_MINIMUM
    } else if v > COORDINATE_MAXIMUM {
        COORDINATE_MAXIMUM
    } else {
        v
    }
}

/// A delimiter that really advances its dimension moves the coordinate
/// strictly forward in document order.
pub proof fn lemma_break_advances(c: Coordinate, d: Dimension)
    requires
        dim_val(c, d) + 1 < COORDINATE_MAXIMUM,
    ensures
        coord_lt(c, broken(c, d)),
{
}

impl Dimension {
    /// Converts a 1-9 key to a dimension; any other key gives `None`.
    pub fn from_index(i: u8) -> (r: Option<Dimension>)
        ensures
            1 <= i <= 9 ==> r == Some(dimension_of_rank(i as int)),
            !(1 <= i <= 9) ==> r is None,
    {
        match i {
            1 => Some(Dimension::Scroll),
            2 => Some(Dimension::Section),
            3 => Some(Dimension::Chapter),
            4 => Some(Dimension::Book),
            5 => Some(Dimension::Volume),
            6 => Some(Dimension::Collection),
            7 => Some(Dimension::Series),
            8 => Some(Dimension::Shelf),
            9 => Some(Dimension::Library),
            _ => None,
        }
    }

    /// The key of this dimension, 1 to 9.
    pub fn index(&self) -> (r: u8)
        ensures
            r as int == rank(*self),
    {
        match self {
            Dimension::Scroll => 1,
            Dimension::Section => 2,
            Dimension::Chapter => 3,
            Dimension::Book => 4,
            Dimension::Volume => 5,
            Dimension::Collection => 6,
            Dimension::Series => 7,
            Dimension::Shelf => 8,
            Dimension::Library => 9,
        }
    }

    /// The name of this dimension.
    pub fn name(&self) -> (r: &'static str)
        ensures
            r@ == dimension_name(*self),
    {
        match self {
            Dimension::Scroll => "Scroll",
            Dimension::Section => "Section",
            Dimension::Chapter => "Chapter",
            Dimension::Book => "Book",
            Dimension::Volume => "Volume",
            Dimension::Collection => "Collection",
            Dimension::Series => "Series",
            Dimension::Shelf => "Shelf",
            Dimension::Library => "Library",
        }
    }

    /// The delimiter byte for this dimension.
    pub fn delimiter(&self) -> (r: u8)
        ensures
            r == delimiter_of(*self),
    {
        match self {
            Dimension::Scroll => 0x17,
            Dimension::Section => 0x18,
            Dimension::Chapter => 0x19,
            Dimension::Book => 0x1A,
            Dimension::Volume => 0x1C,
            Dimension::Collection => 0x1D,
            Dimension::Series => 0x1E,
            Dimension::Shelf => 0x1F,
            Dimension::Library => 0x01,
        }
    }
}

/// The name of a dimension.
pub open spec fn dimension_name(d: Dimension) -> Seq<char> {
    match d {
        Dimension::Scroll => "Scroll"@,
        Dimension::Section => "Section"@,
        Dimension::Chapter => "Chapter"@,
        Dimension::Book => "Book"@,
        Dimension::Volume => "Volume"@,
        Dimension::Collection => "Collection"@,
        Dimension::Series => "Series"@,
        Dimension::Shelf => "Shelf"@,
        Dimension::Library => "Library"@,
    }
}

impl Coordinate {
    /// The value of dimension `d`, in specifications.
    pub open spec fn dim_value_spec(self, d: Dimension) -> usize {
        dim_val(self, d)
    }

    /// The value of dimension `d`.
    pub fn get_dim(&self, d: Dimension) -> (r: usize)
        ensures
            r == dim_val(*self, d),
    {
        match d {
            Dimension::Scroll => self.x.scroll,
            Dimension::Section => self.x.section,
            Dimension::Chapter => self.x.chapter,
            Dimension::Book => self.y.book,
            Dimension::Volume => self.y.volume,
            Dimension::Collection => self.y.collection,
            Dimension::Series => self.z.series,
            Dimension::Shelf => self.z.shelf,
            Dimension::Library => self.z.library,
        }
    }

    /// This coordinate with dimension `d` set to `v` and nothing else changed.
    pub fn put_dim(&self, d: Dimension, v: usize) -> (r: Coordinate)
        ensures
            r == with_val(*self, d, v),
    {
        let mut r = *self;
        match d {
            Dimension::Scroll => r.x.scroll = v,
            Dimension::Section => r.x.section = v,
            Dimension::Chapter => r.x.chapter = v,
            Dimension::Book => r.y.book = v,
            Dimension::Volume => r.y.volume = v,
            Dimension::Collection => r.y.collection = v,
            Dimension::Series => r.z.series = v,
            Dimension::Shelf => r.z.shelf = v,
            Dimension::Library => r.z.library = v,
        }
        r
    }

    /// This coordinate with every dimension finer than `d` set to 1.
    pub fn lower_reset(&self, d: Dimension) -> (r: Coordinate)
        ensures
            r == reset_below(*self, d),
    {
        let k = d.index();
        Coordinate {
            z: ZCoordinate {
                library: self.z.library,
                shelf: if k > 8 { 1 } else { self.z.shelf },
                series: if k > 7 { 1 } else { self.z.series },
            },
            y: YCoordinate {
                collection: if k > 6 { 1 } else { self.y.collection },
                volume: if k > 5 { 1 } else { self.y.volume },
                book: if k > 4 { 1 } else { self.y.book },
            },
            x: XCoordinate {
                chapter: if k > 3 { 1 } else { self.x.chapter },
                section: if k > 2 { 1 } else { self.x.section },
                scroll: if k > 1 { 1 } else { self.x.scroll },
            },
        }
    }

    /// The coordinate after crossing the delimiter of dimension `d`.
    pub fn advanced(&self, d: Dimension) -> (r: Coordinate)
        requires
            dim_val(*self, d) < usize::MAX,
        ensures
            r == broken(*self, d),
    {
        let v = self.get_dim(d);
        let next = v + 1;
        let nv = if next < COORDINATE_MAXIMUM { next } else { v };
        self.put_dim(d, nv).lower_reset(d)
    }
}

/// Navigation of a coordinate along one dimension at a time.
pub trait CoordinateNav: Sized {
    /// Moves forward in `dim`, resetting finer dimensions; `false` when the
    /// value is already at the maximum.
    fn navigate_forward(&mut self, dim: Dimension) -> bool;

    /// Moves backward in `dim`, resetting finer dimensions to 1; `false`
    /// when the value is already at the minimum.
    fn navigate_backward(&mut self, dim: Dimension) -> bool;

    /// The value in `dim`.
    fn dimension_value(&self, dim: Dimension) -> usize;

    /// Sets the value in `dim`, clamped to the valid range; finer dimensions
    /// keep their values.
    fn set_dimension(&mut self, dim: Dimension, value: usize);

    /// A copy with `dim` set to `value` (clamped) and finer dimensions reset.
    fn with_dimension(&self, dim: Dimension, value: usize) -> Self;
}

impl CoordinateNav for Coordinate {
    fn navigate_forward(&mut self, dim: Dimension) -> (moved: bool)
        ensures
            moved == (dim_val(*old(self), dim) < COORDINATE_MAXIMUM),
            moved ==> *final(self) == broken(*old(self), dim),
            !moved ==> *final(self) == *old(self),
    {
        let current = self.get_dim(dim);
        if current >= COORDINATE_MAXIMUM {
            return false;
        }
        match dim {
            Dimension::Scroll => self.scroll_break(),
            Dimension::Section => self.section_break(),
            Dimension::Chapter => self.chapter_break(),
            Dimension::Book => self.book_break(),
            Dimension::Volume => self.volume_break(),
            Dimension::Collection => self.collection_break(),
            Dimension::Series => self.series_break(),
            Dimension::Shelf => self.shelf_break(),
            Dimension::Library => self.library_break(),
        }
        true
    }

    fn navigate_backward(&mut self, dim: Dimension) -> (moved: bool)
        ensures
            moved == (dim_val(*old(self), dim) > COORDINATE_MINIMUM),
            moved ==> *final(self) == reset_below(
                with_val(*old(self), dim, clamp_value((dim_val(*old(self), dim) - 1) as usize)),
                dim,
            ),
            !moved ==> *final(self) == *old(self),
    {
        let current = self.get_dim(dim);
        if current <= COORDINATE_MINIMUM {
            return false;
        }
        let new_val = current - 1;
        self.set_dimension(dim, new_val);
        *self = self.lower_reset(dim);
        true
    }

    fn dimension_value(&self, dim: Dimension) -> (r: usize)
        ensures
            r == dim_val(*self, dim),
    {
        self.get_dim(dim)
    }

    fn set_dimension(&mut self, dim: Dimension, value: usize)
        ensures
            *final(self) == with_val(*old(self), dim, clamp_value(value)),
    {
        let clamped = if value < COORDINATE_MINIMUM {
            COORDINATE_MINIMUM
        } else if value > COORDINATE_MAXIMUM {
            COORDINATE_MAXIMUM
        } else {
            value
        };
        *self = self.put_dim(dim, clamped);
    }

    fn with_dimension(&self, dim: Dimension, value: usize) -> (r: Coordinate)
        ensures
            r == reset_below(with_val(*self, dim, clamp_value(value)), dim),
    {
        let mut result = *self;
        result.set_dimension(dim, value);
        result.lower_reset(dim)
    }
}

} // verus!
