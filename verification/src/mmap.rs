//! A phext document mapped from a file, with copy-on-write editing.
//!
//! The mapping is read-only. Edits go into an overlay keyed by coordinate;
//! the document seen through this type is the mapping with the overlay
//! laid over it, and `to_phext_bytes` rebuilds the phext bytes of that
//! document.
use vstd::prelude::*;
use vstd::utf8::encode_utf8;

use memmap2::Mmap;
use std::path::PathBuf;
use tempfile::TempPath;

use crate::coordinate::{
    base_coordinate, default_coordinate, insert_coordinate_sorted, strictly_sorted, Coordinate,
};
use crate::coordinate_ext::{
    dim_val, delimiter_of, dimension_of_rank, rank, reset_below, with_val, Dimension,
};
use crate::index::{coords_of, index_entries, lookup, LatticeIndex, ScrollSpan};
use crate::text::{decoded_text, push_str_bytes, slice_range, utf8_lossy};

verus! {

/// A read-only memory map of a file, from `memmap2`.
#[verifier::external_type_specification]
#[verifier::external_body]
pub struct ExMmap(Mmap);

/// A file system path, from `std`.
#[verifier::external_type_specification]
#[verifier::external_body]
pub struct ExPathBuf(PathBuf);

/// A path to a temporary file that is removed when dropped, from `tempfile`.
#[verifier::external_type_specification]
#[verifier::external_body]
pub struct ExTempPath(TempPath);

/// The bytes a memory map shows.
pub uninterp spec fn mapped_bytes(m: Mmap) -> Seq<u8>;

/// The mapped bytes, through `Mmap`'s `Deref` to `[u8]`. Claimed: the
/// slice is the named content of the map, the same on every call. That
/// holds of a read-only map while no other process writes its file in
/// place (saving replaces the file by rename, which leaves existing maps
/// as they were); it is not stated what is read otherwise.
#[verifier::external_body]
fn mapped_slice(m: &Mmap) -> (r: &[u8])
    ensures
        r@ == mapped_bytes(*m),
{
    &m[..]
}

/// An overlay entry for a scroll that has been edited.
#[derive(Debug, Clone)]
pub enum ScrollOverlay {
    /// New content for a scroll that the mapping holds.
    Modified(String),
    /// A scroll of the mapping that is deleted.
    Deleted,
    /// Content for a coordinate that the mapping does not hold.
    Inserted(String),
}

/// The entry for `c` in an overlay list.
pub open spec fn overlay_get(ov: Seq<(Coordinate, ScrollOverlay)>, c: Coordinate) -> Option<ScrollOverlay>
    decreases ov.len(),
{
    if ov.len() == 0 {
        None
    } else if ov.last().0 == c {
        Some(ov.last().1)
    } else {
        overlay_get(ov.drop_last(), c)
    }
}

/// No coordinate occurs twice in an overlay list.
pub open spec fn overlay_unique(ov: Seq<(Coordinate, ScrollOverlay)>) -> bool {
    forall|i: int, j: int| 0 <= i < j < ov.len() ==> (#[trigger] ov[i]).0 != (#[trigger] ov[j]).0
}

/// `n` copies of byte `b`.
pub open spec fn repeat_byte(b: u8, n: nat) -> Seq<u8> {
    Seq::new(n, |i: int| b)
}

/// Delimiters of dimension `d` that carry `cur` up to `t`'s value there.
pub open spec fn dim_step_bytes(cur: Coordinate, t: Coordinate, d: Dimension) -> Seq<u8> {
    if dim_val(cur, d) < dim_val(t, d) {
        repeat_byte(delimiter_of(d), (dim_val(t, d) - dim_val(cur, d)) as nat)
    } else {
        seq![]
    }
}

/// Where `cur` stands after those delimiters.
pub open spec fn dim_step_end(cur: Coordinate, t: Coordinate, d: Dimension) -> Coordinate {
    if dim_val(cur, d) < dim_val(t, d) {
        reset_below(with_val(cur, d, dim_val(t, d)), d)
    } else {
        cur
    }
}

/// The delimiters emitted to move from `cur` to `t`, one dimension at a
/// time from rank `k` down to the scroll.
pub open spec fn steps(cur: Coordinate, t: Coordinate, k: int) -> Seq<u8>
    decreases k,
{
    if k <= 0 {
        seq![]
    } else {
        let d = dimension_of_rank(k);
        dim_step_bytes(cur, t, d) + steps(dim_step_end(cur, t, d), t, k - 1)
    }
}

/// Phext bytes for scrolls given in document order: before each scroll,
/// the delimiters that move from the previous scroll's coordinate (or the
/// origin) to its own, then its content.
pub open spec fn serialize(items: Seq<(Coordinate, Seq<u8>)>) -> Seq<u8>
    decreases items.len(),
{
    if items.len() == 0 {
        seq![]
    } else {
        let prev = if items.len() == 1 {
            base_coordinate()
        } else {
            items[items.len() - 2].0
        };
        serialize(items.drop_last()) + steps(prev, items.last().0, 9) + items.last().1
    }
}

/// A memory-mapped phext document with copy-on-write editing.
pub struct MappedLattice {
    /// The read-only mapping.
    mmap: Mmap,
    /// Path of the backing file.
    path: PathBuf,
    /// The index over the mapped bytes.
    index: LatticeIndex,
    /// Edited scrolls, each coordinate at most once.
    overlay: Vec<(Coordinate, ScrollOverlay)>,
    /// A temporary backing file, removed when the document is dropped.
    temp_file: Option<TempPath>,
}

impl MappedLattice {
    /// The mapped bytes.
    pub closed spec fn buffer(&self) -> Seq<u8> {
        mapped_bytes(self.mmap)
    }

    /// The index over the mapped bytes.
    pub closed spec fn index_view(&self) -> Seq<(Coordinate, ScrollSpan)> {
        self.index@
    }

    /// The length of the buffer the index was built over.
    pub closed spec fn index_len(&self) -> nat {
        self.index.spec_buffer_len()
    }

    /// The overlay entries.
    pub closed spec fn overlay_view(&self) -> Seq<(Coordinate, ScrollOverlay)> {
        self.overlay@
    }

    /// The document invariant: the index describes the mapping, and the
    /// overlay holds each coordinate once, `Modified` and `Deleted` only
    /// for indexed coordinates and `Inserted` only for others.
    pub open spec fn wf(&self) -> bool {
        &&& self.index_view() == index_entries(self.buffer())
        &&& self.index_len() == self.buffer().len()
        &&& overlay_unique(self.overlay_view())
        &&& forall|i: int|
            0 <= i < self.overlay_view().len() ==> ((#[trigger] self.overlay_view()[i]).1 is Inserted
                <==> lookup(self.index_view(), self.overlay_view()[i].0) is None)
    }

    /// The content of the scroll at `c`, as this document shows it.
    pub open spec fn content(&self, c: Coordinate) -> Option<Seq<char>> {
        match overlay_get(self.overlay_view(), c) {
            Some(ScrollOverlay::Modified(s)) => Some(s@),
            Some(ScrollOverlay::Inserted(s)) => Some(s@),
            Some(ScrollOverlay::Deleted) => None,
            None => match lookup(self.index_view(), c) {
                Some(sp) => Some(decoded_text(self.buffer().subrange(sp.start as int, sp.end as int))),
                None => None,
            },
        }
    }

    /// A document over `mmap`, backed by the file at `path`; `temp_file`,
    /// if any, is removed when the document is dropped.
    pub fn from_mapping(mmap: Mmap, path: PathBuf, temp_file: Option<TempPath>) -> (r: MappedLattice)
        ensures
            r.wf(),
            r.buffer() == mapped_bytes(mmap),
            r.overlay_view().len() == 0,
            r.backing_path() == path,
    {
        let index = LatticeIndex::build(mapped_slice(&mmap));
        MappedLattice { mmap, path, index, overlay: Vec::new(), temp_file }
    }

    /// Replaces the mapping (after the file was rewritten), rebuilds the
    /// index and clears the overlay.
    pub fn replace_mapping(&mut self, mmap: Mmap)
        ensures
            final(self).wf(),
            final(self).buffer() == mapped_bytes(mmap),
            final(self).overlay_view().len() == 0,
            final(self).backing_path() == old(self).backing_path(),
    {
        self.index = LatticeIndex::build(mapped_slice(&mmap));
        self.mmap = mmap;
        self.overlay = Vec::new();
    }

    /// Position of `c` in the overlay list.
    fn overlay_position(&self, c: &Coordinate) -> (r: Option<usize>)
        ensures
            match r {
                Some(i) => i < self.overlay_view().len() && self.overlay_view()[i as int].0 == *c,
                None => forall|i: int|
                    0 <= i < self.overlay_view().len() ==> (#[trigger] self.overlay_view()[i]).0 != *c,
            },
    {
        let n = self.overlay.len();
        let mut i: usize = 0;
        while i < n
            invariant
                0 <= i <= n,
                n == self.overlay@.len(),
                forall|k: int| 0 <= k < i ==> (#[trigger] self.overlay@[k]).0 != *c,
            decreases n - i,
        {
            if self.overlay[i].0.same(c) {
                return Some(i);
            }
            i = i + 1;
        }
        None
    }

    /// The overlay entry of a coordinate that occurs at position `i`.
    proof fn lemma_overlay_at(ov: Seq<(Coordinate, ScrollOverlay)>, i: int)
        requires
            overlay_unique(ov),
            0 <= i < ov.len(),
        ensures
            overlay_get(ov, ov[i].0) == Some(ov[i].1),
        decreases ov.len(),
    {
        if i != ov.len() - 1 {
            assert(ov.drop_last()[i] == ov[i]);
            Self::lemma_overlay_at(ov.drop_last(), i);
        }
    }

    /// A coordinate that occurs nowhere has no overlay entry.
    proof fn lemma_overlay_absent(ov: Seq<(Coordinate, ScrollOverlay)>, c: Coordinate)
        requires
            forall|i: int| 0 <= i < ov.len() ==> (#[trigger] ov[i]).0 != c,
        ensures
            overlay_get(ov, c) is None,
        decreases ov.len(),
    {
        if ov.len() > 0 {
            assert(ov.last().0 != c);
            assert forall|i: int| 0 <= i < ov.drop_last().len() implies (#[trigger] ov.drop_last()[i]).0 != c by {
                assert(ov.drop_last()[i] == ov[i]);
            }
            Self::lemma_overlay_absent(ov.drop_last(), c);
        }
    }

    /// The content of the scroll at `coord`: the overlay version if it was
    /// edited, otherwise the mapped bytes decoded as UTF-8 (lossily where they
    /// are not valid).
    pub fn read_scroll(&self, coord: &Coordinate) -> (r: Option<String>)
        requires
            self.wf(),
        ensures
            match r {
                Some(s) => self.content(*coord) == Some(s@),
                None => self.content(*coord) is None,
            },
    {
        match self.overlay_position(coord) {
            Some(i) => {
                proof {
                    Self::lemma_overlay_at(self.overlay@, i as int);
                }
                match &self.overlay[i].1 {
                    ScrollOverlay::Modified(s) => Some(s.clone()),
                    ScrollOverlay::Inserted(s) => Some(s.clone()),
                    ScrollOverlay::Deleted => None,
                }
            },
            None => {
                proof {
                    Self::lemma_overlay_absent(self.overlay@, *coord);
                }
                match self.index.get(coord) {
                    Some(span) => {
                        let bytes = mapped_slice(&self.mmap);
                        let blen = bytes.len();
                        proof {
                            crate::index::lemma_lookup_span_bounds(bytes@, *coord);
                        }
                        let piece = slice_range(bytes, span.start, span.end);
                        Some(utf8_lossy(piece))
                    },
                    None => None,
                }
            },
        }
    }

    /// The overlay entry of every coordinate, after the list changed.
    proof fn lemma_overlay_lookup(ov: Seq<(Coordinate, ScrollOverlay)>, c: Coordinate)
        requires
            overlay_unique(ov),
        ensures
            (exists|i: int| 0 <= i < ov.len() && (#[trigger] ov[i]).0 == c) || overlay_get(ov, c) is None,
            forall|i: int| 0 <= i < ov.len() && (#[trigger] ov[i]).0 == c ==> overlay_get(ov, c) == Some(ov[i].1),
    {
        assert forall|i: int| 0 <= i < ov.len() && (#[trigger] ov[i]).0 == c implies overlay_get(ov, c) == Some(ov[i].1) by {
            Self::lemma_overlay_at(ov, i);
        }
        if !(exists|i: int| 0 <= i < ov.len() && (#[trigger] ov[i]).0 == c) {
            Self::lemma_overlay_absent(ov, c);
        }
    }

    /// Writes `content` to the scroll at `coord`, in the overlay.
    pub fn write_scroll(&mut self, coord: Coordinate, content: String)
        requires
            old(self).wf(),
        ensures
            final(self).wf(),
            final(self).buffer() == old(self).buffer(),
            final(self).index_view() == old(self).index_view(),
            forall|c: Coordinate| #[trigger] final(self).content(c) == if c == coord {
                Some(content@)
            } else {
                old(self).content(c)
            },
            final(self).overlay_view().len() == old(self).overlay_view().len() + if overlay_get(
                old(self).overlay_view(),
                coord,
            ) is Some {
                0int
            } else {
                1int
            },
    {
        let ghost content_view = content@;
        let entry = if self.index.contains(&coord) {
            ScrollOverlay::Modified(content)
        } else {
            ScrollOverlay::Inserted(content)
        };
        let ghost old_ov = self.overlay@;
        let pos = self.overlay_position(&coord);
        proof {
            Self::lemma_overlay_lookup(old_ov, coord);
        }
        match pos {
            Some(i) => {
                self.overlay.set(i, (coord, entry));
            },
            None => {
                self.overlay.push((coord, entry));
            },
        }
        proof {
            let ov = self.overlay@;
            let pi: int = match pos {
                Some(i) => i as int,
                None => -1,
            };
            assert forall|a: int, b: int| 0 <= a < b < ov.len() implies (#[trigger] ov[a]).0 != (#[trigger] ov[b]).0 by {
                if b < old_ov.len() && a != pi && b != pi {
                    assert(ov[a] == old_ov[a] && ov[b] == old_ov[b]);
                } else if a < old_ov.len() && b < old_ov.len() {
                    if a == pi {
                        assert(ov[b] == old_ov[b]);
                        assert(old_ov[a].0 == coord);
                    } else {
                        assert(ov[a] == old_ov[a]);
                        assert(old_ov[b].0 == coord);
                    }
                } else {
                    assert(ov[a] == old_ov[a]);
                }
            }
            assert forall|c: Coordinate| #[trigger] self.content(c) == if c == coord {
                Some(content_view)
            } else {
                old(self).content(c)
            } by {
                Self::lemma_overlay_lookup(ov, c);
                Self::lemma_overlay_lookup(old_ov, c);
                if c == coord {
                    match pos {
                        Some(i) => assert(ov[i as int].0 == c),
                        None => assert(ov[ov.len() - 1].0 == c),
                    }
                } else {
                    if exists|i: int| 0 <= i < ov.len() && (#[trigger] ov[i]).0 == c {
                        let i = choose|i: int| 0 <= i < ov.len() && (#[trigger] ov[i]).0 == c;
                        assert(ov[i] == old_ov[i]);
                    } else if exists|i: int| 0 <= i < old_ov.len() && (#[trigger] old_ov[i]).0 == c {
                        let i = choose|i: int| 0 <= i < old_ov.len() && (#[trigger] old_ov[i]).0 == c;
                        assert(ov[i] == old_ov[i]);
                    }
                }
            }
            assert forall|i: int| 0 <= i < ov.len() implies ((#[trigger] ov[i]).1 is Inserted
                <==> lookup(self.index@, ov[i].0) is None) by {
                if ov[i].0 != coord {
                    assert(ov[i] == old_ov[i]);
                }
            }
        }
    }

    /// Deletes the scroll at `coord`: an indexed scroll is marked deleted,
    /// an inserted one is dropped from the overlay.
    pub fn delete_scroll(&mut self, coord: Coordinate)
        requires
            old(self).wf(),
        ensures
            final(self).wf(),
            final(self).buffer() == old(self).buffer(),
            final(self).index_view() == old(self).index_view(),
            forall|c: Coordinate| #[trigger] final(self).content(c) == if c == coord {
                None
            } else {
                old(self).content(c)
            },
    {
        let ghost old_ov = self.overlay@;
        let pos = self.overlay_position(&coord);
        proof {
            Self::lemma_overlay_lookup(old_ov, coord);
        }
        if self.index.contains(&coord) {
            match pos {
                Some(i) => {
                    self.overlay.set(i, (coord, ScrollOverlay::Deleted));
                },
                None => {
                    self.overlay.push((coord, ScrollOverlay::Deleted));
                },
            }
        } else {
            match pos {
                Some(i) => {
                    self.overlay.remove(i);
                },
                None => {},
            }
        }
        proof {
            let ov = self.overlay@;
            let removed = !(lookup(self.index@, coord) is Some) && pos is Some;
            assert forall|k: int| 0 <= k < ov.len() implies #[trigger] ov[k] == if removed && k >= pos.unwrap() as int {
                old_ov[k + 1]
            } else if k < old_ov.len() && (pos is None || k != pos.unwrap() as int) {
                old_ov[k]
            } else {
                ov[k]
            } by {}
            assert forall|a: int, b: int| 0 <= a < b < ov.len() implies (#[trigger] ov[a]).0 != (#[trigger] ov[b]).0 by {
                if removed {
                    let p = pos.unwrap() as int;
                    let a0 = if a >= p { a + 1 } else { a };
                    let b0 = if b >= p { b + 1 } else { b };
                    assert(ov[a] == old_ov[a0] && ov[b] == old_ov[b0]);
                } else if b < old_ov.len() {
                    let pi: int = match pos {
                        Some(i) => i as int,
                        None => -1,
                    };
                    if a == pi {
                        assert(ov[b] == old_ov[b]);
                        assert(old_ov[a].0 == coord);
                    } else if b == pi {
                        assert(ov[a] == old_ov[a]);
                        assert(old_ov[b].0 == coord);
                    } else {
                        assert(ov[a] == old_ov[a] && ov[b] == old_ov[b]);
                    }
                } else {
                    assert(ov[a] == old_ov[a]);
                }
            }
            assert forall|c: Coordinate| #[trigger] self.content(c) == if c == coord {
                None
            } else {
                old(self).content(c)
            } by {
                Self::lemma_overlay_lookup(ov, c);
                Self::lemma_overlay_lookup(old_ov, c);
                if c == coord {
                    if lookup(self.index@, coord) is Some {
                        match pos {
                            Some(i) => assert(ov[i as int].0 == c),
                            None => assert(ov[ov.len() - 1].0 == c),
                        }
                    } else {
                        if exists|i: int| 0 <= i < ov.len() && (#[trigger] ov[i]).0 == c {
                            let i = choose|i: int| 0 <= i < ov.len() && (#[trigger] ov[i]).0 == c;
                            if removed && i >= pos.unwrap() as int {
                                assert(ov[i] == old_ov[i + 1]);
                            } else {
                                assert(ov[i] == old_ov[i]);
                            }
                        }
                    }
                } else {
                    if exists|i: int| 0 <= i < ov.len() && (#[trigger] ov[i]).0 == c {
                        let i = choose|i: int| 0 <= i < ov.len() && (#[trigger] ov[i]).0 == c;
                        if removed && i >= pos.unwrap() as int {
                            assert(ov[i] == old_ov[i + 1]);
                        } else {
                            assert(ov[i] == old_ov[i]);
                        }
                    } else if exists|i: int| 0 <= i < old_ov.len() && (#[trigger] old_ov[i]).0 == c {
                        let i = choose|i: int| 0 <= i < old_ov.len() && (#[trigger] old_ov[i]).0 == c;
                        if removed && i > pos.unwrap() as int {
                            assert(ov[i - 1] == old_ov[i]);
                        } else {
                            assert(ov[i] == old_ov[i]);
                        }
                    }
                }
            }
            assert forall|i: int| 0 <= i < ov.len() implies ((#[trigger] ov[i]).1 is Inserted
                <==> lookup(self.index@, ov[i].0) is None) by {
                if removed && i >= pos.unwrap() as int {
                    assert(ov[i] == old_ov[i + 1]);
                } else if ov[i].0 != coord {
                    assert(ov[i] == old_ov[i]);
                }
            }
        }
    }

    /// Whether the scroll at `coord` has content in this document.
    pub fn has_scroll(&self, coord: &Coordinate) -> (r: bool)
        requires
            self.wf(),
        ensures
            r == (self.content(*coord) is Some),
    {
        match self.overlay_position(coord) {
            Some(i) => {
                proof {
                    Self::lemma_overlay_at(self.overlay@, i as int);
                }
                match &self.overlay[i].1 {
                    ScrollOverlay::Deleted => false,
                    _ => true,
                }
            },
            None => {
                proof {
                    Self::lemma_overlay_absent(self.overlay@, *coord);
                }
                self.index.contains(coord)
            },
        }
    }

    /// The coordinates with content, in document order, each once (there is
    /// exactly one such sequence).
    pub open spec fn populated_spec(&self) -> Seq<Coordinate> {
        choose|s: Seq<Coordinate>| strictly_sorted(s) && forall|c: Coordinate| s.contains(c) <==> (self.content(c) is Some)
    }

    /// All coordinates with content, in document order, each once.
    pub fn populated_coordinates(&self) -> (r: Vec<Coordinate>)
        requires
            self.wf(),
        ensures
            strictly_sorted(r@),
            forall|c: Coordinate| r@.contains(c) <==> (self.content(c) is Some),
            r@ == self.populated_spec(),
    {
        let coords = self.index.coordinates();
        let mut out: Vec<Coordinate> = Vec::new();
        let n = coords.len();
        let mut i: usize = 0;
        while i < n
            invariant
                self.wf(),
                0 <= i <= n,
                coords@ == coords_of(self.index@),
                n == coords@.len(),
                strictly_sorted(out@),
                forall|c: Coordinate| out@.contains(c) <==> (exists|k: int| 0 <= k < i && #[trigger] coords@[k] == c
                    && !(overlay_get(self.overlay@, c) matches Some(ScrollOverlay::Deleted))),
            decreases n - i,
        {
            let c = coords[i];
            let deleted = match self.overlay_position(&c) {
                Some(j) => {
                    proof {
                        Self::lemma_overlay_at(self.overlay@, j as int);
                    }
                    match &self.overlay[j].1 {
                        ScrollOverlay::Deleted => true,
                        _ => false,
                    }
                },
                None => {
                    proof {
                        Self::lemma_overlay_absent(self.overlay@, c);
                    }
                    false
                },
            };
            if !deleted {
                insert_coordinate_sorted(&mut out, c);
            }
            proof {
                assert forall|y: Coordinate| out@.contains(y) <==> (exists|k: int| 0 <= k < i + 1 && #[trigger] coords@[k] == y
                    && !(overlay_get(self.overlay@, y) matches Some(ScrollOverlay::Deleted))) by {
                    if y == c && !deleted {
                        assert(coords@[i as int] == y);
                    }
                    if exists|k: int| 0 <= k < i + 1 && #[trigger] coords@[k] == y
                        && !(overlay_get(self.overlay@, y) matches Some(ScrollOverlay::Deleted)) {
                        let k = choose|k: int| 0 <= k < i + 1 && #[trigger] coords@[k] == y
                            && !(overlay_get(self.overlay@, y) matches Some(ScrollOverlay::Deleted));
                        if k < i {
                            assert(exists|k: int| 0 <= k < i && #[trigger] coords@[k] == y
                                && !(overlay_get(self.overlay@, y) matches Some(ScrollOverlay::Deleted)));
                        }
                    }
                }
            }
            i = i + 1;
        }
        let m = self.overlay.len();
        let mut j: usize = 0;
        while j < m
            invariant
                self.wf(),
                0 <= j <= m,
                m == self.overlay@.len(),
                coords@ == coords_of(self.index@),
                strictly_sorted(out@),
                forall|c: Coordinate| out@.contains(c) <==> ((exists|k: int| 0 <= k < n && #[trigger] coords@[k] == c
                    && !(overlay_get(self.overlay@, c) matches Some(ScrollOverlay::Deleted))) || (exists|k: int|
                    0 <= k < j && (#[trigger] self.overlay@[k]).0 == c && self.overlay@[k].1 is Inserted)),
            decreases m - j,
        {
            let inserted = match &self.overlay[j].1 {
                ScrollOverlay::Inserted(_) => true,
                _ => false,
            };
            let c = self.overlay[j].0;
            if inserted {
                insert_coordinate_sorted(&mut out, c);
            }
            proof {
                assert forall|y: Coordinate| out@.contains(y) <==> ((exists|k: int| 0 <= k < n && #[trigger] coords@[k] == y
                    && !(overlay_get(self.overlay@, y) matches Some(ScrollOverlay::Deleted))) || (exists|k: int|
                    0 <= k < j + 1 && (#[trigger] self.overlay@[k]).0 == y && self.overlay@[k].1 is Inserted)) by {
                    if y == c && inserted {
                        assert(self.overlay@[j as int].0 == y);
                    }
                    if exists|k: int| 0 <= k < j + 1 && (#[trigger] self.overlay@[k]).0 == y && self.overlay@[k].1 is Inserted {
                        let k = choose|k: int| 0 <= k < j + 1 && (#[trigger] self.overlay@[k]).0 == y && self.overlay@[k].1 is Inserted;
                        if k < j {
                            assert(exists|k: int| 0 <= k < j && (#[trigger] self.overlay@[k]).0 == y && self.overlay@[k].1 is Inserted);
                        }
                    }
                }
            }
            j = j + 1;
        }
        proof {
            assert forall|c: Coordinate| out@.contains(c) <==> (self.content(c) is Some) by {
                crate::index::lemma_lookup_some_iff(self.index@, c);
                Self::lemma_overlay_lookup(self.overlay@, c);
                if coords@.contains(c) {
                    let k = choose|k: int| 0 <= k < coords@.len() && coords@[k] == c;
                    assert(coords@[k] == c);
                }
                if exists|k: int| 0 <= k < m && (#[trigger] self.overlay@[k]).0 == c {
                    let k = choose|k: int| 0 <= k < m && (#[trigger] self.overlay@[k]).0 == c;
                    assert(self.overlay@[k].0 == c);
                }
            }
            let p = self.populated_spec();
            assert(strictly_sorted(p) && forall|c: Coordinate| p.contains(c) <==> (self.content(c) is Some));
            crate::serial_laws::lemma_sorted_same(out@, p);
        }
        out
    }

    /// Number of scrolls with content in this document: the length of the
    /// list `populated_coordinates` gives.
    pub fn scroll_count(&self) -> (r: usize)
        requires
            self.wf(),
        ensures
            r == self.populated_spec().len(),
    {
        let v = self.populated_coordinates();
        v.len()
    }

    /// Whether there are unsaved edits.
    pub fn is_dirty(&self) -> (r: bool)
        ensures
            r == (self.overlay_view().len() > 0),
    {
        self.overlay.len() > 0
    }

    /// Number of edited (modified, inserted or deleted) scrolls.
    pub fn pending_changes(&self) -> (r: usize)
        ensures
            r == self.overlay_view().len(),
    {
        self.overlay.len()
    }

    /// The mapped bytes, while there are no unsaved edits.
    pub fn raw_buffer(&self) -> (r: Option<&[u8]>)
        ensures
            self.overlay_view().len() == 0 ==> (r matches Some(b) && b@ == self.buffer()),
            self.overlay_view().len() > 0 ==> r is None,
    {
        if self.overlay.len() == 0 {
            Some(mapped_slice(&self.mmap))
        } else {
            None
        }
    }

    /// The index over the mapped bytes.
    pub fn index(&self) -> (r: &LatticeIndex)
        ensures
            r@ == self.index_view(),
            r.spec_buffer_len() == self.index_len(),
    {
        &self.index
    }

    /// The path of the backing file.
    pub closed spec fn backing_path(&self) -> PathBuf {
        self.path
    }

    /// The path of the backing file.
    pub fn path(&self) -> (r: &PathBuf)
        ensures
            *r == self.backing_path(),
    {
        &self.path
    }

    /// Sets the path of the backing file.
    pub fn set_path(&mut self, path: PathBuf)
        ensures
            final(self).backing_path() == path,
            final(self).buffer() == old(self).buffer(),
            final(self).index_view() == old(self).index_view(),
            final(self).overlay_view() == old(self).overlay_view(),
    {
        self.path = path;
    }

    /// Discards all unsaved edits.
    pub fn revert(&mut self)
        requires
            old(self).wf(),
        ensures
            final(self).wf(),
            final(self).buffer() == old(self).buffer(),
            final(self).index_view() == old(self).index_view(),
            final(self).overlay_view().len() == 0,
            final(self).backing_path() == old(self).backing_path(),
    {
        self.overlay = Vec::new();
    }

    /// The scrolls of this document for the sorted coordinates `s`: each
    /// coordinate with the UTF-8 bytes of its content.
    pub open spec fn items(&self, s: Seq<Coordinate>) -> Seq<(Coordinate, Seq<u8>)> {
        s.map_values(|c: Coordinate| (c, encode_utf8(self.content(c).unwrap())))
    }

    /// The phext bytes of this document: without edits the mapped bytes
    /// exactly; with edits the scrolls with content in document order, each
    /// preceded by the delimiters that reach its coordinate from the
    /// previous one.
    pub open spec fn phext_bytes_spec(&self) -> Seq<u8> {
        if self.overlay_view().len() == 0 {
            self.buffer()
        } else {
            serialize(self.items(self.populated_spec()))
        }
    }

    /// The phext bytes of this document (see `phext_bytes_spec`).
    pub fn to_phext_bytes(&self) -> (r: Vec<u8>)
        requires
            self.wf(),
        ensures
            r@ == self.phext_bytes_spec(),
    {
        if self.overlay.len() == 0 {
            return vstd::slice::slice_to_vec(mapped_slice(&self.mmap));
        }
        let coords = self.populated_coordinates();
        let mut output: Vec<u8> = Vec::new();
        let mut current = default_coordinate();
        let n = coords.len();
        let mut i: usize = 0;
        while i < n
            invariant
                self.wf(),
                0 <= i <= n,
                n == coords@.len(),
                forall|c: Coordinate| coords@.contains(c) <==> (self.content(c) is Some),
                coords@ == self.populated_spec(),
                current == if i == 0 { base_coordinate() } else { coords@[i - 1] },
                output@ == serialize(self.items(coords@.take(i as int))),
            decreases n - i,
        {
            let coord = coords[i];
            assert(coords@.contains(coord));
            let ghost before = output@;
            let ghost from = current;
            emit_steps(&mut output, &mut current, &coord);
            let content = self.read_scroll(&coord);
            match content {
                Some(text) => {
                    push_str_bytes(&mut output, text.as_str());
                },
                None => {
                    assert(false);
                },
            }
            current = coord;
            proof {
                let it = self.items(coords@.take(i + 1));
                assert(it.drop_last() =~= self.items(coords@.take(i as int)));
                assert(it.last() == (coord, encode_utf8(self.content(coord).unwrap())));
                if i > 0 {
                    assert(it[it.len() - 2].0 == coords@[i - 1]);
                }
            }
            i = i + 1;
        }
        assert(coords@.take(n as int) =~= coords@);
        output
    }
}

/// Emits the delimiters of dimension `d` that carry `cur` up to `t`'s
/// value there.
fn emit_dimension(out: &mut Vec<u8>, cur: &mut Coordinate, t: &Coordinate, d: Dimension)
    ensures
        final(out)@ == old(out)@ + dim_step_bytes(*old(cur), *t, d),
        *final(cur) == dim_step_end(*old(cur), *t, d),
{
    let v0 = cur.get_dim(d);
    let target = t.get_dim(d);
    if v0 < target {
        let delim = d.delimiter();
        let mut i = v0;
        while i < target
            invariant
                v0 <= i <= target,
                out@ == old(out)@ + repeat_byte(delim, (i - v0) as nat),
            decreases target - i,
        {
            out.push(delim);
            i = i + 1;
            assert(out@ =~= old(out)@ + repeat_byte(delim, (i - v0) as nat));
        }
        *cur = cur.put_dim(d, target).lower_reset(d);
    } else {
        assert(out@ =~= old(out)@ + dim_step_bytes(*old(cur), *t, d));
    }
}

/// Emits the delimiters that move `cur` to `t`, one dimension at a time
/// from the library down to the scroll.
pub(crate) fn emit_steps(out: &mut Vec<u8>, cur: &mut Coordinate, t: &Coordinate)
    ensures
        final(out)@ == old(out)@ + steps(*old(cur), *t, 9),
{
    let mut k: u8 = 9;
    while k > 0
        invariant
            0 <= k <= 9,
            old(out)@ + steps(*old(cur), *t, 9) == out@ + steps(*cur, *t, k as int),
        decreases k,
    {
        let d = match Dimension::from_index(k) {
            Some(d) => d,
            None => Dimension::Scroll,
        };
        assert(d == dimension_of_rank(k as int));
        let ghost before = out@;
        let ghost cb = *cur;
        emit_dimension(out, cur, t, d);
        assert(steps(cb, *t, k as int) == dim_step_bytes(cb, *t, d) + steps(*cur, *t, k - 1));
        assert(out@ + steps(*cur, *t, k - 1) =~= before + steps(cb, *t, k as int));
        k = k - 1;
    }
}


} // verus!
