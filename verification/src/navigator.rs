//! The lattice navigator: a cursor over the nine-dimensional coordinate
//! space with an active dimension, a stack of marks, and a back/forward
//! history.
use vstd::prelude::*;

use crate::coordinate::{base_coordinate, default_coordinate, Coordinate, COORDINATE_MAXIMUM};
use crate::coordinate_ext::{
    broken, clamp_value, dim_val, dimension_name, dimension_of_rank, reset_below, with_val,
    CoordinateNav, Dimension, COORDINATE_MINIMUM_VALUE,
};
use crate::index::{coords_of, distinct_count, is_next_after, is_prev_before, lookup, LatticeIndex};

verus! {

/// Longest history kept; beyond it the oldest entries are dropped.
pub const HISTORY_LIMIT: usize = 1000;

/// How many entries remain after the history is trimmed.
pub const HISTORY_KEEP: usize = 500;

/// The abstract state of a navigator.
pub struct NavigatorView {
    pub position: Coordinate,
    pub active_dimension: Dimension,
    pub marks: Seq<Coordinate>,
    pub history: Seq<Coordinate>,
    pub history_cursor: nat,
}

/// The history after visiting `pos`: the forward part beyond `cursor` is
/// cut, `pos` is appended, and an overlong history keeps only its newest
/// entries.
pub open spec fn pushed_history(history: Seq<Coordinate>, cursor: nat, pos: Coordinate) -> Seq<Coordinate> {
    let h = history.take(cursor + 1int).push(pos);
    if h.len() > HISTORY_LIMIT {
        h.skip(h.len() - HISTORY_KEEP)
    } else {
        h
    }
}

/// The cursor state for one position in the lattice.
#[derive(Debug)]
pub struct Navigator {
    /// Current coordinate.
    position: Coordinate,
    /// The dimension that forward/backward moves act on.
    active_dimension: Dimension,
    /// Stack of marks for quick return.
    marks: Vec<Coordinate>,
    /// Visited positions, oldest first.
    history: Vec<Coordinate>,
    /// Index of the current position in `history`.
    history_cursor: usize,
}

impl View for Navigator {
    type V = NavigatorView;

    closed spec fn view(&self) -> NavigatorView {
        NavigatorView {
            position: self.position,
            active_dimension: self.active_dimension,
            marks: self.marks@,
            history: self.history@,
            history_cursor: self.history_cursor as nat,
        }
    }
}

/// The history is never empty, never longer than the limit, and its cursor
/// always points at the current position.
pub open spec fn navigator_wf(v: NavigatorView) -> bool {
    &&& 1 <= v.history.len() <= HISTORY_LIMIT
    &&& v.history_cursor < v.history.len()
    &&& v.history[v.history_cursor as int] == v.position
}

/// The state after a move to `pos` that records history.
pub open spec fn visited(v: NavigatorView, pos: Coordinate) -> NavigatorView {
    let h = pushed_history(v.history, v.history_cursor, pos);
    NavigatorView { position: pos, history: h, history_cursor: (h.len() - 1) as nat, ..v }
}

/// The state after a mark is set at the current position.
pub open spec fn marked(v: NavigatorView) -> NavigatorView {
    NavigatorView { marks: v.marks.push(v.position), ..v }
}

/// The state after jumping to the newest mark, which is taken off the
/// stack (for a state with a mark).
pub open spec fn mark_jumped(v: NavigatorView) -> NavigatorView {
    visited(NavigatorView { marks: v.marks.drop_last(), ..v }, v.marks.last())
}

/// The state one step back in history (for a state that is not at the
/// oldest entry).
pub open spec fn stepped_back(v: NavigatorView) -> NavigatorView {
    NavigatorView { position: v.history[v.history_cursor - 1], history_cursor: (v.history_cursor - 1) as nat, ..v }
}

/// The state one step forward in history (for a state that is not at the
/// newest entry).
pub open spec fn stepped_forward(v: NavigatorView) -> NavigatorView {
    NavigatorView { position: v.history[v.history_cursor + 1int], history_cursor: v.history_cursor + 1, ..v }
}

impl Navigator {
    /// The navigator invariant.
    pub open spec fn wf(&self) -> bool {
        navigator_wf(self@)
    }

    /// A navigator at the origin, with the scroll dimension active.
    pub fn new() -> (r: Navigator)
        ensures
            r.wf(),
            r@.position == base_coordinate(),
            r@.active_dimension == Dimension::Scroll,
            r@.marks.len() == 0,
            r@.history == seq![base_coordinate()],
            r@.history_cursor == 0,
    {
        let start = default_coordinate();
        Navigator {
            position: start,
            active_dimension: Dimension::Scroll,
            marks: Vec::new(),
            history: vec![start],
            history_cursor: 0,
        }
    }

    /// A navigator starting at `coord`.
    pub fn at(coord: Coordinate) -> (r: Navigator)
        ensures
            r.wf(),
            r@.position == coord,
            r@.active_dimension == Dimension::Scroll,
            r@.marks.len() == 0,
            r@.history == seq![coord],
            r@.history_cursor == 0,
    {
        Navigator {
            position: coord,
            active_dimension: Dimension::Scroll,
            marks: Vec::new(),
            history: vec![coord],
            history_cursor: 0,
        }
    }

    /// Current position.
    pub fn position(&self) -> (r: Coordinate)
        ensures
            r == self@.position,
    {
        self.position
    }

    /// The active dimension.
    pub fn active_dimension(&self) -> (r: Dimension)
        ensures
            r == self@.active_dimension,
    {
        self.active_dimension
    }

    /// Selects the active dimension by key 1-9; other keys change nothing
    /// and give `false`.
    pub fn select_dimension(&mut self, index: u8) -> (r: bool)
        requires
            old(self).wf(),
        ensures
            final(self).wf(),
            r == (1 <= index <= 9),
            r ==> final(self)@ == (NavigatorView {
                active_dimension: dimension_of_rank(index as int),
                ..old(self)@
            }),
            !r ==> final(self)@ == old(self)@,
    {
        if let Some(dim) = Dimension::from_index(index) {
            self.active_dimension = dim;
            true
        } else {
            false
        }
    }

    /// Records the current position in the history.
    fn push_history(&mut self)
        requires
            old(self).history@.len() >= 1,
            old(self).history_cursor < old(self).history@.len(),
            old(self).history@.len() <= HISTORY_LIMIT,
        ensures
            final(self)@ == visited(old(self)@, old(self).position),
            final(self).position == old(self).position,
            final(self).active_dimension == old(self).active_dimension,
            final(self).marks == old(self).marks,
    {
        let ghost h0 = self.history@;
        self.history.truncate(self.history_cursor + 1);
        self.history.push(self.position);
        self.history_cursor = self.history.len() - 1;
        if self.history.len() > HISTORY_LIMIT {
            let drain = self.history.len() - HISTORY_KEEP;
            let kept = self.history.split_off(drain);
            self.history = kept;
            self.history_cursor = self.history.len() - 1;
        }
        assert(self.history@ =~= pushed_history(h0, old(self).history_cursor as nat, self.position));
    }

    /// Moves forward in the active dimension (finer dimensions reset).
    pub fn move_forward(&mut self) -> (moved: bool)
        requires
            old(self).wf(),
        ensures
            final(self).wf(),
            moved == (dim_val(old(self)@.position, old(self)@.active_dimension) < COORDINATE_MAXIMUM),
            moved ==> final(self)@ == visited(
                old(self)@,
                broken(old(self)@.position, old(self)@.active_dimension),
            ),
            !moved ==> final(self)@ == old(self)@,
    {
        let dim = self.active_dimension;
        let moved = self.position.navigate_forward(dim);
        if moved {
            self.push_history();
        }
        moved
    }

    /// Moves backward in the active dimension (finer dimensions reset to 1).
    pub fn move_backward(&mut self) -> (moved: bool)
        requires
            old(self).wf(),
        ensures
            final(self).wf(),
            moved == (dim_val(old(self)@.position, old(self)@.active_dimension)
                > COORDINATE_MINIMUM_VALUE),
            moved ==> final(self)@ == visited(
                old(self)@,
                reset_below(
                    with_val(
                        old(self)@.position,
                        old(self)@.active_dimension,
                        clamp_value(
                            (dim_val(old(self)@.position, old(self)@.active_dimension) - 1) as usize,
                        ),
                    ),
                    old(self)@.active_dimension,
                ),
            ),
            !moved ==> final(self)@ == old(self)@,
    {
        let dim = self.active_dimension;
        let moved = self.position.navigate_backward(dim);
        if moved {
            self.push_history();
        }
        moved
    }

    /// Jumps to `coord`.
    pub fn goto(&mut self, coord: Coordinate)
        requires
            old(self).wf(),
        ensures
            final(self).wf(),
            final(self)@ == visited(old(self)@, coord),
    {
        self.position = coord;
        self.push_history();
    }

    /// Jumps to the next populated coordinate of `index`, if there is one.
    pub fn next_populated(&mut self, index: &LatticeIndex) -> (moved: bool)
        requires
            old(self).wf(),
        ensures
            final(self).wf(),
            exists|r: Option<Coordinate>|
                {
                    &&& is_next_after(coords_of(index@), old(self)@.position, r)
                    &&& moved == r is Some
                    &&& r matches Some(c) ==> final(self)@ == visited(old(self)@, c)
                    &&& r is None ==> final(self)@ == old(self)@
                },
    {
        let r = index.next_populated(&self.position);
        if let Some(next) = r {
            self.position = next;
            self.push_history();
            true
        } else {
            false
        }
    }

    /// Jumps to the previous populated coordinate of `index`, if there is one.
    pub fn prev_populated(&mut self, index: &LatticeIndex) -> (moved: bool)
        requires
            old(self).wf(),
        ensures
            final(self).wf(),
            exists|r: Option<Coordinate>|
                {
                    &&& is_prev_before(coords_of(index@), old(self)@.position, r)
                    &&& moved == r is Some
                    &&& r matches Some(c) ==> final(self)@ == visited(old(self)@, c)
                    &&& r is None ==> final(self)@ == old(self)@
                },
    {
        let r = index.prev_populated(&self.position);
        if let Some(prev) = r {
            self.position = prev;
            self.push_history();
            true
        } else {
            false
        }
    }

    /// Pushes the current position onto the mark stack.
    pub fn set_mark(&mut self)
        requires
            old(self).wf(),
        ensures
            final(self).wf(),
            final(self)@ == marked(old(self)@),
    {
        let p = self.position;
        self.marks.push(p);
    }

    /// Pops the newest mark and jumps to it; `false` when there is none.
    pub fn jump_to_mark(&mut self) -> (moved: bool)
        requires
            old(self).wf(),
        ensures
            final(self).wf(),
            moved == (old(self)@.marks.len() > 0),
            moved ==> final(self)@ == mark_jumped(old(self)@),
            !moved ==> final(self)@ == old(self)@,
    {
        if let Some(mark) = self.marks.pop() {
            self.position = mark;
            self.push_history();
            true
        } else {
            false
        }
    }

    /// Steps back in the history; `false` at its start.
    pub fn history_back(&mut self) -> (moved: bool)
        requires
            old(self).wf(),
        ensures
            final(self).wf(),
            moved == (old(self)@.history_cursor > 0),
            moved ==> final(self)@ == stepped_back(old(self)@),
            !moved ==> final(self)@ == old(self)@,
    {
        if self.history_cursor > 0 {
            self.history_cursor = self.history_cursor - 1;
            self.position = self.history[self.history_cursor];
            true
        } else {
            false
        }
    }

    /// Steps forward in the history; `false` at its end.
    pub fn history_forward(&mut self) -> (moved: bool)
        requires
            old(self).wf(),
        ensures
            final(self).wf(),
            moved == (old(self)@.history_cursor + 1 < old(self)@.history.len()),
            moved ==> final(self)@ == stepped_forward(old(self)@),
            !moved ==> final(self)@ == old(self)@,
    {
        if self.history_cursor + 1 < self.history.len() {
            self.history_cursor = self.history_cursor + 1;
            self.position = self.history[self.history_cursor];
            true
        } else {
            false
        }
    }

    /// The values around the current one in the active dimension:
    /// `(previous, current, next)`, with `None` at a boundary.
    pub fn dimension_neighbors(&self) -> (r: (Option<usize>, usize, Option<usize>))
        ensures
            r.1 == dim_val(self@.position, self@.active_dimension),
            r.0 == (if r.1 > 1 { Some((r.1 - 1) as usize) } else { None::<usize> }),
            r.2 == (if r.1 < COORDINATE_MAXIMUM { Some((r.1 + 1) as usize) } else { None::<usize> }),
    {
        let current = self.position.dimension_value(self.active_dimension);
        let prev = if current > 1 { Some(current - 1) } else { None };
        let next = if current < COORDINATE_MAXIMUM { Some(current + 1) } else { None };
        (prev, current, next)
    }

    /// A summary of the neighbourhood of the current position.
    pub fn summarize(&self, index: &LatticeIndex) -> (r: NeighborhoodSummary)
        ensures
            r.position == self@.position,
            r.dimension_name@ == dimension_name(self@.active_dimension),
            r.dimension_value == dim_val(self@.position, self@.active_dimension),
            r.total_scrolls == distinct_count(coords_of(index@)),
            r.has_content == (lookup(index@, self@.position) is Some),
            is_next_after(coords_of(index@), self@.position, r.next),
            is_prev_before(coords_of(index@), self@.position, r.prev),
    {
        NeighborhoodSummary {
            position: self.position,
            dimension_name: self.active_dimension.name(),
            dimension_value: self.position.dimension_value(self.active_dimension),
            total_scrolls: index.scroll_count(),
            has_content: index.contains(&self.position),
            next: index.next_populated(&self.position),
            prev: index.prev_populated(&self.position),
        }
    }
}

/// The neighbourhood of a coordinate, for rendering.
#[derive(Debug)]
pub struct NeighborhoodSummary {
    /// Current coordinate.
    pub position: Coordinate,
    /// Name of the active dimension.
    pub dimension_name: &'static str,
    /// Current value in the active dimension.
    pub dimension_value: usize,
    /// Number of populated scrolls.
    pub total_scrolls: usize,
    /// Whether the current position has content.
    pub has_content: bool,
    /// Next populated coordinate, if any.
    pub next: Option<Coordinate>,
    /// Previous populated coordinate, if any.
    pub prev: Option<Coordinate>,
}

/// Going back in history and then forward returns to the same state.
pub proof fn lemma_back_then_forward(v: NavigatorView)
    requires
        navigator_wf(v),
        v.history_cursor > 0,
    ensures
        navigator_wf(stepped_back(v)),
        stepped_back(v).history_cursor + 1 < stepped_back(v).history.len(),
        stepped_forward(stepped_back(v)) == v,
{
}

/// Going forward in history and then back returns to the same state.
pub proof fn lemma_forward_then_back(v: NavigatorView)
    requires
        navigator_wf(v),
        v.history_cursor + 1 < v.history.len(),
    ensures
        navigator_wf(stepped_forward(v)),
        stepped_forward(v).history_cursor > 0,
        stepped_back(stepped_forward(v)) == v,
{
}

/// After a move that records history, going back returns to where the
/// move started (while the history is short enough not to be trimmed).
pub proof fn lemma_visit_then_back(v: NavigatorView, pos: Coordinate)
    requires
        navigator_wf(v),
        v.history_cursor + 2 <= HISTORY_LIMIT,
    ensures
        navigator_wf(visited(v, pos)),
        visited(v, pos).history_cursor > 0,
        stepped_back(visited(v, pos)).position == v.position,
{
    let h = v.history.take(v.history_cursor + 1int).push(pos);
    assert(pushed_history(v.history, v.history_cursor, pos) == h);
    assert(h[v.history_cursor as int] == v.history[v.history_cursor as int]);
}

/// Setting a mark and then jumping to it returns to the marked position
/// (recorded in history) and leaves the marks as they were.
pub proof fn lemma_mark_then_jump(v: NavigatorView)
    ensures
        marked(v).marks.len() > 0,
        mark_jumped(marked(v)) == visited(v, v.position),
{
    assert(marked(v).marks.drop_last() =~= v.marks);
}

} // verus!
