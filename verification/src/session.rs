//! The terminal navigator's session: which mode it is in, what a key press
//! does in each mode, and what its screens show.
//!
//! Lattice mode moves through the document; the scroll view shows one
//! scroll; two input modes read a coordinate to jump to or a text to search
//! for; the results mode walks the search hits.
use vstd::prelude::*;
use vstd::utf8::encode_utf8;

use crate::coordinate::{base_coordinate, coord_lt, default_coordinate, Coordinate, COORDINATE_MAXIMUM};
use crate::coordinate_ext::{
    broken, clamp_value, dim_val, dimension_name, dimension_of_rank, rank, reset_below, with_val, Dimension,
};
use crate::index::{coords_of, is_next_after, is_prev_before, lemma_next_after_unique, lemma_prev_before_unique};
use crate::mmap::MappedLattice;
use crate::navigator::{visited, Navigator, NavigatorView};
use crate::search::{hits_view, lattice_hits, lowered_pattern, search_lattice, SearchHit};
use crate::server::{arm_label, coordinate_chars, tier_key};
use crate::text::{dec_chars, push_chars, push_dec_chars, string_from_chars};

verus! {

/// What a coordinate text reads as with `libphext::phext::to_coordinate`.
pub uninterp spec fn address_coordinate(address: Seq<u8>) -> Coordinate;

/// Whether a byte separates the values of a coordinate text.
pub open spec fn address_separator(b: u8) -> bool {
    b == 46u8 || b == 47u8 || b == 59u8
}

/// The value `to_coordinate` is accumulating after the first `n` bytes:
/// a separator starts a new value, a digit extends it, other bytes are
/// passed over.
pub open spec fn address_value(b: Seq<u8>, n: nat) -> int
    decreases n,
{
    if n == 0 || n > b.len() {
        0
    } else {
        let v = address_value(b, (n - 1) as nat);
        let c = b[n - 1];
        let start = if address_separator(c) {
            0
        } else {
            v
        };
        if 48 <= c <= 57 {
            10 * start + (c - 48)
        } else {
            start
        }
    }
}

/// Whether `to_coordinate` reads the text without its running value
/// leaving a `u32`.
pub open spec fn address_fits(b: Seq<u8>) -> bool {
    forall|n: nat| n <= b.len() ==> #[trigger] address_value(b, n) <= u32::MAX
}

/// Reads a coordinate text with `libphext::phext::to_coordinate`, which
/// starts from the origin and sets the values it finds in turn. Claimed:
/// the result is the named reading of the text's bytes.
#[verifier::external_body]
fn read_address(address: &str) -> (r: Coordinate)
    requires
        address_fits(encode_utf8(address@)),
    ensures
        r == address_coordinate(encode_utf8(address@)),
{
    let c = libphext::phext::to_coordinate(address);
    Coordinate {
        z: crate::coordinate::ZCoordinate { library: c.z.library, shelf: c.z.shelf, series: c.z.series },
        y: crate::coordinate::YCoordinate { collection: c.y.collection, volume: c.y.volume, book: c.y.book },
        x: crate::coordinate::XCoordinate { chapter: c.x.chapter, section: c.x.section, scroll: c.x.scroll },
    }
}

/// Whether `to_coordinate` can read the bytes `b` (see `address_fits`).
pub fn address_fits_check(b: &[u8]) -> (r: bool)
    ensures
        r == address_fits(b@),
{
    let n = b.len();
    let mut v: u64 = 0;
    let mut i: usize = 0;
    while i < n
        invariant
            0 <= i <= n,
            n == b@.len(),
            v == address_value(b@, i as nat),
            forall|k: nat| k <= i ==> #[trigger] address_value(b@, k) <= u32::MAX,
        decreases n - i,
    {
        let c = b[i];
        let start: u64 = if c == 46u8 || c == 47u8 || c == 59u8 {
            0
        } else {
            v
        };
        let next: u64 = if 48 <= c && c <= 57 {
            10 * start + (c - 48) as u64
        } else {
            start
        };
        assert(next == address_value(b@, (i + 1) as nat));
        if next > 0xffff_ffffu64 {
            return false;
        }
        v = next;
        i = i + 1;
    }
    true
}

/// The screens of the terminal navigator.
#[derive(Debug, Clone, Copy, PartialEq, Eq, Structural)]
pub enum SessionMode {
    /// Moving through the document.
    Lattice,
    /// Reading one scroll.
    ScrollView,
    /// Typing a coordinate to jump to.
    GotoInput,
    /// Typing a text to search for.
    SearchInput,
    /// Walking the search hits.
    SearchResults,
}

/// A key press, as the session reads it.
#[derive(Debug, Clone, Copy, PartialEq, Eq, Structural)]
pub enum SessionKey {
    Char(char),
    Enter,
    Esc,
    Backspace,
    Up,
    Down,
    Left,
    Right,
    PageUp,
    PageDown,
    Other,
}

/// The abstract state of a session.
pub struct SessionView {
    pub mode: SessionMode,
    pub input: Seq<char>,
    pub hits: Seq<(Coordinate, usize, usize, Seq<u8>)>,
    pub cursor: nat,
    pub status: Seq<char>,
    pub offset: u16,
    pub nav: NavigatorView,
}

/// The coordinate after `c` among `cs`, if any.
pub open spec fn next_of(cs: Seq<Coordinate>, c: Coordinate) -> Option<Coordinate> {
    choose|r: Option<Coordinate>| is_next_after(cs, c, r)
}

/// The coordinate before `c` among `cs`, if any.
pub open spec fn prev_of(cs: Seq<Coordinate>, c: Coordinate) -> Option<Coordinate> {
    choose|r: Option<Coordinate>| is_prev_before(cs, c, r)
}

/// The session with a navigator state and a status message.
pub open spec fn with_nav(v: SessionView, n: NavigatorView) -> SessionView {
    SessionView { nav: n, ..v }
}

/// The session with a new status message, when `failed`.
pub open spec fn status_if(v: SessionView, failed: bool, msg: Seq<char>) -> SessionView {
    if failed {
        SessionView { status: msg, ..v }
    } else {
        v
    }
}

/// A move in lattice mode: right and left step through the active
/// dimension, down and up jump between scrolls; a move that cannot be made
/// leaves a message.
pub open spec fn move_step(m: MappedLattice, v: SessionView, key: SessionKey) -> SessionView {
    let n = v.nav;
    let d = n.active_dimension;
    let p = n.position;
    let cs = coords_of(m.index_view());
    match key {
        SessionKey::Right => if dim_val(p, d) < COORDINATE_MAXIMUM {
            with_nav(v, visited(n, broken(p, d)))
        } else {
            SessionView { status: "At maximum"@, ..v }
        },
        SessionKey::Left => if dim_val(p, d) > 1 {
            with_nav(v, visited(n, reset_below(with_val(p, d, clamp_value((dim_val(p, d) - 1) as usize)), d)))
        } else {
            SessionView { status: "At minimum"@, ..v }
        },
        SessionKey::Down => match next_of(cs, p) {
            Some(c) => with_nav(v, visited(n, c)),
            None => SessionView { status: "No more populated scrolls"@, ..v },
        },
        SessionKey::Up => match prev_of(cs, p) {
            Some(c) => with_nav(v, visited(n, c)),
            None => SessionView { status: "At first populated scroll"@, ..v },
        },
        _ => v,
    }
}

/// What a character does in lattice mode.
pub open spec fn lattice_char(m: MappedLattice, v: SessionView, c: char) -> (SessionView, bool) {
    let n = v.nav;
    let p = n.position;
    if c == 'q' {
        (v, true)
    } else if '1' <= c <= '9' {
        (with_nav(v, NavigatorView { active_dimension: dimension_of_rank(c as int - 48), ..n }), false)
    } else if c == 'l' {
        (move_step(m, v, SessionKey::Right), false)
    } else if c == 'h' {
        (move_step(m, v, SessionKey::Left), false)
    } else if c == 'j' {
        (move_step(m, v, SessionKey::Down), false)
    } else if c == 'k' {
        (move_step(m, v, SessionKey::Up), false)
    } else if c == 'g' {
        (SessionView { mode: SessionMode::GotoInput, input: seq![], ..v }, false)
    } else if c == '/' {
        (SessionView { mode: SessionMode::SearchInput, input: seq![], ..v }, false)
    } else if c == 'm' {
        (SessionView { nav: NavigatorView { marks: n.marks.push(p), ..n }, status: "Mark set"@, ..v }, false)
    } else if c == '\'' {
        if n.marks.len() > 0 {
            (with_nav(v, visited(NavigatorView { marks: n.marks.drop_last(), ..n }, n.marks.last())), false)
        } else {
            (SessionView { status: "No marks"@, ..v }, false)
        }
    } else if c == '[' {
        if n.history_cursor > 0 {
            (
                with_nav(
                    v,
                    NavigatorView {
                        position: n.history[n.history_cursor - 1],
                        history_cursor: (n.history_cursor - 1) as nat,
                        ..n
                    },
                ),
                false,
            )
        } else {
            (SessionView { status: "No history"@, ..v }, false)
        }
    } else if c == ']' {
        if n.history_cursor + 1 < n.history.len() {
            (
                with_nav(
                    v,
                    NavigatorView { position: n.history[n.history_cursor + 1int], history_cursor: n.history_cursor + 1, ..n },
                ),
                false,
            )
        } else {
            (SessionView { status: "At latest"@, ..v }, false)
        }
    } else {
        (v, false)
    }
}

/// What a key does in lattice mode.
pub open spec fn lattice_step(m: MappedLattice, v: SessionView, key: SessionKey) -> (SessionView, bool) {
    match key {
        SessionKey::Char(c) => lattice_char(m, v, c),
        SessionKey::Enter => if m.content(v.nav.position) is Some {
            (SessionView { mode: SessionMode::ScrollView, offset: 0, ..v }, false)
        } else {
            (SessionView { status: "Empty coordinate"@, ..v }, false)
        },
        _ => (move_step(m, v, key), false),
    }
}

/// `a + b` capped at the largest `u16`.
pub open spec fn sat_add(a: u16, b: u16) -> u16 {
    if a + b > u16::MAX {
        u16::MAX
    } else {
        (a + b) as u16
    }
}

/// `a - b` stopping at zero.
pub open spec fn sat_sub(a: u16, b: u16) -> u16 {
    if a >= b {
        (a - b) as u16
    } else {
        0
    }
}

/// What a key does in the scroll view.
pub open spec fn scroll_step(v: SessionView, key: SessionKey) -> SessionView {
    match key {
        SessionKey::Esc => SessionView { mode: SessionMode::Lattice, ..v },
        SessionKey::Char(c) => if c == 'q' {
            SessionView { mode: SessionMode::Lattice, ..v }
        } else if c == 'j' {
            SessionView { offset: sat_add(v.offset, 1), ..v }
        } else if c == 'k' {
            SessionView { offset: sat_sub(v.offset, 1), ..v }
        } else {
            v
        },
        SessionKey::Down => SessionView { offset: sat_add(v.offset, 1), ..v },
        SessionKey::Up => SessionView { offset: sat_sub(v.offset, 1), ..v },
        SessionKey::PageDown => SessionView { offset: sat_add(v.offset, 20), ..v },
        SessionKey::PageUp => SessionView { offset: sat_sub(v.offset, 20), ..v },
        _ => v,
    }
}

/// What a key does while a text is typed: characters are added,
/// backspace removes the last one; escape leaves to lattice mode.
pub open spec fn typing_step(v: SessionView, key: SessionKey) -> SessionView {
    match key {
        SessionKey::Esc => SessionView { mode: SessionMode::Lattice, ..v },
        SessionKey::Char(c) => SessionView { input: v.input.push(c), ..v },
        SessionKey::Backspace => SessionView {
            input: if v.input.len() > 0 {
                v.input.drop_last()
            } else {
                v.input
            },
            ..v
        },
        _ => v,
    }
}

/// Enter in the goto input: jump to the coordinate the text reads as
/// (when the reader can read it).
pub open spec fn goto_enter(v: SessionView) -> SessionView {
    let b = encode_utf8(v.input);
    if address_fits(b) {
        let c = address_coordinate(b);
        SessionView {
            nav: visited(v.nav, c),
            mode: SessionMode::Lattice,
            status: "Jumped to "@ + coordinate_chars(c),
            ..v
        }
    } else {
        SessionView { mode: SessionMode::Lattice, status: "Coordinate out of range"@, ..v }
    }
}

/// Enter in the search input: the case-insensitive hits for the text, at
/// most 100, with a count in the status.
pub open spec fn search_enter(m: MappedLattice, v: SessionView) -> SessionView {
    let hits = lattice_hits(
        m.buffer(),
        m.index_view(),
        m.index_view().len() as int,
        v.input,
        lowered_pattern(v.input, false),
        false,
        100,
    );
    let status = dec_chars(hits.len()) + " hits for \""@ + v.input + "\""@;
    if hits.len() == 0 {
        SessionView { mode: SessionMode::Lattice, status, ..v }
    } else {
        SessionView { mode: SessionMode::SearchResults, hits, cursor: 0, status, ..v }
    }
}

/// What a key does among the search results.
pub open spec fn results_step(v: SessionView, key: SessionKey) -> SessionView {
    let down = SessionView { cursor: if v.cursor + 1 < v.hits.len() { v.cursor + 1 } else { v.cursor }, ..v };
    let up = SessionView { cursor: if v.cursor > 0 { (v.cursor - 1) as nat } else { 0 }, ..v };
    match key {
        SessionKey::Esc => SessionView { mode: SessionMode::Lattice, ..v },
        SessionKey::Char(c) => if c == 'q' {
            SessionView { mode: SessionMode::Lattice, ..v }
        } else if c == 'j' {
            down
        } else if c == 'k' {
            up
        } else {
            v
        },
        SessionKey::Down => down,
        SessionKey::Up => up,
        SessionKey::Enter => if v.cursor < v.hits.len() {
            SessionView { nav: visited(v.nav, v.hits[v.cursor as int].0), mode: SessionMode::Lattice, ..v }
        } else {
            v
        },
        _ => v,
    }
}

/// What a key press does, and whether it ends the session: Ctrl-C always
/// ends it, then each mode reads the key its own way.
pub open spec fn session_step(m: MappedLattice, v: SessionView, key: SessionKey, ctrl: bool) -> (SessionView, bool) {
    if ctrl && key == SessionKey::Char('c') {
        (v, true)
    } else {
        match v.mode {
            SessionMode::Lattice => lattice_step(m, v, key),
            SessionMode::ScrollView => (scroll_step(v, key), false),
            SessionMode::GotoInput => if key == SessionKey::Enter {
                (goto_enter(v), false)
            } else {
                (typing_step(v, key), false)
            },
            SessionMode::SearchInput => if key == SessionKey::Enter {
                (search_enter(m, v), false)
            } else {
                (typing_step(v, key), false)
            },
            SessionMode::SearchResults => (results_step(v, key), false),
        }
    }
}

/// A terminal navigator session over a document.
pub struct NavSession {
    /// The document (never edited by the session).
    pub lattice: MappedLattice,
    /// Where the session is.
    pub nav: Navigator,
    /// The current screen.
    pub mode: SessionMode,
    /// The text being typed.
    pub input_buffer: Vec<char>,
    /// The hits of the last search.
    pub search_hits: Vec<SearchHit>,
    /// The selected hit.
    pub search_cursor: usize,
    /// The last message.
    pub status_message: String,
    /// How far the scroll view is scrolled.
    pub scroll_offset: u16,
}

impl NavSession {
    /// The abstract state.
    pub open spec fn view(&self) -> SessionView {
        SessionView {
            mode: self.mode,
            input: self.input_buffer@,
            hits: hits_view(self.search_hits@),
            cursor: self.search_cursor as nat,
            status: self.status_message@,
            offset: self.scroll_offset,
            nav: self.nav@,
        }
    }

    /// The session invariant: an unedited, well-formed document and a
    /// well-formed navigator.
    pub open spec fn wf(&self) -> bool {
        &&& self.lattice.wf()
        &&& self.lattice.overlay_view().len() == 0
        &&& self.nav.wf()
    }

    /// A session on a document: at the origin when it holds a scroll,
    /// otherwise at the first scroll after it.
    pub fn new(lattice: MappedLattice) -> (r: NavSession)
        requires
            lattice.wf(),
            lattice.overlay_view().len() == 0,
        ensures
            r.wf(),
            r.lattice == lattice,
            r.mode == SessionMode::Lattice,
            r.view().input.len() == 0,
            r.view().hits.len() == 0,
            r.view().status.len() == 0,
            r.scroll_offset == 0,
            lattice.content(base_coordinate()) is Some ==> r.nav@.position == base_coordinate(),
            lattice.content(base_coordinate()) is None ==> r.nav@.position == match next_of(
                coords_of(lattice.index_view()),
                base_coordinate(),
            ) {
                Some(c) => c,
                None => base_coordinate(),
            },
    {
        let mut nav = Navigator::new();
        let ghost cs = coords_of(lattice.index_view());
        let ghost n0 = nav@;
        nav.next_populated(lattice.index());
        proof {
            let r = choose|r: Option<Coordinate>|
                {
                    &&& is_next_after(cs, base_coordinate(), r)
                    &&& r matches Some(c) ==> nav@ == visited(n0, c)
                    &&& r is None ==> nav@ == n0
                };
            lemma_next_after_unique(cs, base_coordinate(), r, next_of(cs, base_coordinate()));
        }
        let base = default_coordinate();
        if lattice.has_scroll(&base) {
            nav.goto(base);
        }
        let hits: Vec<SearchHit> = Vec::new();
        assert(hits_view(hits@) =~= Seq::<(Coordinate, usize, usize, Seq<u8>)>::empty());
        NavSession {
            lattice,
            nav,
            mode: SessionMode::Lattice,
            input_buffer: Vec::new(),
            search_hits: hits,
            search_cursor: 0,
            status_message: String::new(),
            scroll_offset: 0,
        }
    }

    /// Sets the status message.
    fn say(&mut self, msg: &str)
        ensures
            final(self).status_message@ == msg@,
            final(self).lattice == old(self).lattice,
            final(self).nav == old(self).nav,
            final(self).mode == old(self).mode,
            final(self).input_buffer == old(self).input_buffer,
            final(self).search_hits == old(self).search_hits,
            final(self).search_cursor == old(self).search_cursor,
            final(self).scroll_offset == old(self).scroll_offset,
    {
        self.status_message = msg.to_owned();
    }

    /// A move in lattice mode.
    fn move_key(&mut self, key: SessionKey)
        requires
            old(self).wf(),
        ensures
            final(self).wf(),
            final(self).lattice == old(self).lattice,
            final(self).view() == move_step(old(self).lattice, old(self).view(), key),
    {
        let ghost v = self.view();
        let ghost cs = coords_of(self.lattice.index_view());
        let ghost n0 = self.nav@;
        match key {
            SessionKey::Right => {
                if !self.nav.move_forward() {
                    self.say("At maximum");
                }
            },
            SessionKey::Left => {
                if !self.nav.move_backward() {
                    self.say("At minimum");
                }
            },
            SessionKey::Down => {
                let moved = self.nav.next_populated(self.lattice.index());
                proof {
                    let r = choose|r: Option<Coordinate>|
                        {
                            &&& is_next_after(cs, n0.position, r)
                            &&& moved == r is Some
                            &&& r matches Some(c) ==> self.nav@ == visited(n0, c)
                            &&& r is None ==> self.nav@ == n0
                        };
                    lemma_next_after_unique(cs, n0.position, r, next_of(cs, n0.position));
                }
                if !moved {
                    self.say("No more populated scrolls");
                }
            },
            SessionKey::Up => {
                let moved = self.nav.prev_populated(self.lattice.index());
                proof {
                    let r = choose|r: Option<Coordinate>|
                        {
                            &&& is_prev_before(cs, n0.position, r)
                            &&& moved == r is Some
                            &&& r matches Some(c) ==> self.nav@ == visited(n0, c)
                            &&& r is None ==> self.nav@ == n0
                        };
                    lemma_prev_before_unique(cs, n0.position, r, prev_of(cs, n0.position));
                }
                if !moved {
                    self.say("At first populated scroll");
                }
            },
            _ => {},
        }
    }

    /// A character in lattice mode; `true` to quit.
    fn lattice_char_key(&mut self, c: char) -> (quit: bool)
        requires
            old(self).wf(),
        ensures
            final(self).wf(),
            final(self).lattice == old(self).lattice,
            (final(self).view(), quit) == lattice_char(old(self).lattice, old(self).view(), c),
    {
        if c == 'q' {
            return true;
        }
        if '1' <= c && c <= '9' {
            let k = ((c as u32) - 48) as u8;
            self.nav.select_dimension(k);
            return false;
        }
        if c == 'l' {
            self.move_key(SessionKey::Right);
        } else if c == 'h' {
            self.move_key(SessionKey::Left);
        } else if c == 'j' {
            self.move_key(SessionKey::Down);
        } else if c == 'k' {
            self.move_key(SessionKey::Up);
        } else if c == 'g' {
            self.mode = SessionMode::GotoInput;
            self.input_buffer = Vec::new();
        } else if c == '/' {
            self.mode = SessionMode::SearchInput;
            self.input_buffer = Vec::new();
        } else if c == 'm' {
            self.nav.set_mark();
            self.say("Mark set");
        } else if c == '\'' {
            if !self.nav.jump_to_mark() {
                self.say("No marks");
            }
        } else if c == '[' {
            if !self.nav.history_back() {
                self.say("No history");
            }
        } else if c == ']' {
            if !self.nav.history_forward() {
                self.say("At latest");
            }
        }
        false
    }

    /// Enter in the goto input.
    fn goto_key(&mut self)
        requires
            old(self).wf(),
        ensures
            final(self).wf(),
            final(self).lattice == old(self).lattice,
            final(self).view() == goto_enter(old(self).view()),
    {
        let text = string_from_chars(self.input_buffer.as_slice());
        if address_fits_check(text.as_str().as_bytes()) {
            let c = read_address(text.as_str());
            self.nav.goto(c);
            self.mode = SessionMode::Lattice;
            let mut msg: Vec<char> = Vec::new();
            push_chars(&mut msg, "Jumped to ");
            let ghost start = msg@;
            push_arm_chars(&mut msg, (c.z.library, c.z.shelf, c.z.series));
            msg.push('/');
            push_arm_chars(&mut msg, (c.y.collection, c.y.volume, c.y.book));
            msg.push('/');
            push_arm_chars(&mut msg, (c.x.chapter, c.x.section, c.x.scroll));
            assert(msg@ =~= "Jumped to "@ + coordinate_chars(c));
            self.status_message = string_from_chars(msg.as_slice());
        } else {
            self.mode = SessionMode::Lattice;
            self.say("Coordinate out of range");
        }
    }

    /// Enter in the search input.
    fn search_key(&mut self)
        requires
            old(self).wf(),
        ensures
            final(self).wf(),
            final(self).lattice == old(self).lattice,
            final(self).view() == search_enter(old(self).lattice, old(self).view()),
    {
        let pattern = string_from_chars(self.input_buffer.as_slice());
        // A session's document has no pending edits, so its mapped bytes
        // are the document's bytes.
        let buffer = match self.lattice.raw_buffer() {
            Some(buffer) => buffer,
            None => {
                assert(false);
                return;
            },
        };
        let hits = search_lattice(buffer, self.lattice.index(), pattern.as_str(), false, 100);
        let mut msg: Vec<char> = Vec::new();
        push_dec_chars(&mut msg, hits.len());
        push_chars(&mut msg, " hits for \"");
        let mut i: usize = 0;
        let ghost start = msg@;
        while i < self.input_buffer.len()
            invariant
                0 <= i <= self.input_buffer@.len(),
                msg@ == start + self.input_buffer@.take(i as int),
            decreases self.input_buffer@.len() - i,
        {
            msg.push(self.input_buffer[i]);
            assert(self.input_buffer@.take(i + 1) =~= self.input_buffer@.take(i as int).push(self.input_buffer@[i as int]));
            i = i + 1;
        }
        assert(self.input_buffer@.take(i as int) =~= self.input_buffer@);
        push_chars(&mut msg, "\"");
        self.status_message = string_from_chars(msg.as_slice());
        if hits.len() == 0 {
            self.mode = SessionMode::Lattice;
        } else {
            self.search_hits = hits;
            self.search_cursor = 0;
            self.mode = SessionMode::SearchResults;
        }
    }

    /// A key in the scroll view.
    fn scroll_key(&mut self, key: SessionKey)
        requires
            old(self).wf(),
        ensures
            final(self).wf(),
            final(self).lattice == old(self).lattice,
            final(self).view() == scroll_step(old(self).view(), key),
    {
        match key {
            SessionKey::Esc => self.mode = SessionMode::Lattice,
            SessionKey::Char(c) => {
                if c == 'q' {
                    self.mode = SessionMode::Lattice;
                } else if c == 'j' {
                    self.scroll_offset = self.scroll_offset.saturating_add(1);
                } else if c == 'k' {
                    self.scroll_offset = self.scroll_offset.saturating_sub(1);
                }
            },
            SessionKey::Down => self.scroll_offset = self.scroll_offset.saturating_add(1),
            SessionKey::Up => self.scroll_offset = self.scroll_offset.saturating_sub(1),
            SessionKey::PageDown => self.scroll_offset = self.scroll_offset.saturating_add(20),
            SessionKey::PageUp => self.scroll_offset = self.scroll_offset.saturating_sub(20),
            _ => {},
        }
    }

    /// A key while a text is typed.
    fn typing_key(&mut self, key: SessionKey)
        requires
            old(self).wf(),
        ensures
            final(self).wf(),
            final(self).lattice == old(self).lattice,
            final(self).view() == typing_step(old(self).view(), key),
    {
        match key {
            SessionKey::Esc => self.mode = SessionMode::Lattice,
            SessionKey::Char(c) => self.input_buffer.push(c),
            SessionKey::Backspace => {
                self.input_buffer.pop();
            },
            _ => {},
        }
    }

    /// A key among the search results.
    fn results_key(&mut self, key: SessionKey)
        requires
            old(self).wf(),
        ensures
            final(self).wf(),
            final(self).lattice == old(self).lattice,
            final(self).view() == results_step(old(self).view(), key),
    {
        let down = match key {
            SessionKey::Down => true,
            SessionKey::Char(c) => c == 'j',
            _ => false,
        };
        let up = match key {
            SessionKey::Up => true,
            SessionKey::Char(c) => c == 'k',
            _ => false,
        };
        let leave = match key {
            SessionKey::Esc => true,
            SessionKey::Char(c) => c == 'q',
            _ => false,
        };
        if leave {
            self.mode = SessionMode::Lattice;
        } else if down {
            if self.search_hits.len() > 0 && self.search_cursor < self.search_hits.len() - 1 {
                self.search_cursor = self.search_cursor + 1;
            }
        } else if up {
            self.search_cursor = if self.search_cursor > 0 {
                self.search_cursor - 1
            } else {
                0
            };
        } else if key == SessionKey::Enter {
            if self.search_cursor < self.search_hits.len() {
                let c = self.search_hits[self.search_cursor].coordinate;
                self.nav.goto(c);
                self.mode = SessionMode::Lattice;
            }
        }
    }

    /// Handles a key press (`ctrl` when Control is held); `true` when the
    /// session ends.
    pub fn handle_key(&mut self, key: SessionKey, ctrl: bool) -> (quit: bool)
        requires
            old(self).wf(),
        ensures
            final(self).wf(),
            final(self).lattice == old(self).lattice,
            (final(self).view(), quit) == session_step(old(self).lattice, old(self).view(), key, ctrl),
    {
        if ctrl && key == SessionKey::Char('c') {
            return true;
        }
        match self.mode {
            SessionMode::Lattice => match key {
                SessionKey::Char(c) => self.lattice_char_key(c),
                SessionKey::Enter => {
                    let pos = self.nav.position();
                    if self.lattice.has_scroll(&pos) {
                        self.mode = SessionMode::ScrollView;
                        self.scroll_offset = 0;
                    } else {
                        self.say("Empty coordinate");
                    }
                    false
                },
                _ => {
                    self.move_key(key);
                    false
                },
            },
            SessionMode::ScrollView => {
                self.scroll_key(key);
                false
            },
            SessionMode::GotoInput => {
                if key == SessionKey::Enter {
                    self.goto_key();
                } else {
                    self.typing_key(key);
                }
                false
            },
            SessionMode::SearchInput => {
                if key == SessionKey::Enter {
                    self.search_key();
                } else {
                    self.typing_key(key);
                }
                false
            },
            SessionMode::SearchResults => {
                self.results_key(key);
                false
            },
        }
    }
}

/// How a piece of screen text is drawn.
#[derive(Debug, Clone, Copy, PartialEq, Eq, Structural)]
pub enum Tone {
    /// A field name.
    Label,
    /// The main value.
    Strong,
    /// The active dimension.
    Accent,
    /// Scroll content.
    Content,
    /// Secondary text.
    Faint,
    /// A coordinate one can go to.
    Link,
    /// The highlighted row.
    Selected,
}

/// A side of the dimension bar: the value, or a dash at the boundary.
pub open spec fn side_text(v: Option<usize>) -> Seq<char> {
    match v {
        Some(x) => dec_chars(x as nat),
        None => seq!['\u{2014}'],
    }
}

/// The coordinate bar: position, active dimension, the values around the
/// current one, the number of scrolls, and a dot that is filled when the
/// position holds a scroll.
pub open spec fn status_text(m: MappedLattice, n: NavigatorView) -> Seq<char> {
    let p = n.position;
    let d = n.active_dimension;
    let cur = dim_val(p, d);
    let prev = if cur > 1 { Some((cur - 1) as usize) } else { None::<usize> };
    let next = if cur < COORDINATE_MAXIMUM { Some((cur + 1) as usize) } else { None::<usize> };
    " "@ + coordinate_chars(p) + " [dim:"@ + dec_chars(rank(d) as nat) + " "@ + dimension_name(d) + "]  \u{2190} "@
        + side_text(prev) + " | "@ + side_text(next) + " \u{2192}  ["@ + dec_chars(
        crate::index::distinct_count(coords_of(m.index_view())),
    ) + " scrolls]"@ + if m.content(p) is Some {
        " \u{25cf}"@
    } else {
        " \u{25cb}"@
    }
}

/// The help line of a mode (in lattice mode, the last message if any).
pub open spec fn help_text(mode: SessionMode, status: Seq<char>) -> Seq<char> {
    match mode {
        SessionMode::Lattice => if status.len() == 0 {
            "1-9:dim  h/l:move  j/k:populated  Enter:view  g:goto  /:search  m:mark  ':jump  q:quit"@
        } else {
            status
        },
        SessionMode::ScrollView => "j/k:scroll  PgUp/PgDn  Esc:back"@,
        SessionMode::GotoInput => "Enter:jump  Esc:cancel"@,
        SessionMode::SearchInput => "Enter:search  Esc:cancel"@,
        SessionMode::SearchResults => "j/k:navigate  Enter:jump  Esc:back"@,
    }
}

/// A line of screen text: pieces with their tones.
pub open spec fn line_view(l: Vec<(String, Tone)>) -> Seq<(Seq<char>, Tone)> {
    l@.map_values(|p: (String, Tone)| (p.0@, p.1))
}

/// Lines of screen text.
pub open spec fn lines_view(v: Seq<Vec<(String, Tone)>>) -> Seq<Seq<(Seq<char>, Tone)>> {
    v.map_values(|l: Vec<(String, Tone)>| line_view(l))
}

/// The first `n` characters of a text.
pub open spec fn first_chars(t: Seq<char>, n: nat) -> Seq<char> {
    if t.len() <= n {
        t
    } else {
        t.take(n as int)
    }
}

/// The guide line of dimension key `k` (1 to 9) at `p`, highlighted when it
/// is the active one.
pub open spec fn guide_line(p: Coordinate, active: Dimension, k: int) -> Seq<(Seq<char>, Tone)> {
    let d = dimension_of_rank(k);
    seq![
        (
            "    "@ + dec_chars(k as nat) + " "@ + dimension_name(d) + " = "@ + dec_chars(dim_val(p, d) as nat),
            if d == active { Tone::Selected } else { Tone::Faint },
        ),
    ]
}

/// The lines showing the scroll at the position: its first 200 characters
/// and, for a longer one, its size in bytes; or a note that it is empty.
pub open spec fn content_lines(content: Option<Seq<char>>) -> Seq<Seq<(Seq<char>, Tone)>> {
    match content {
        Some(t) => seq![seq![("  Content: "@, Tone::Label)], seq![("  "@ + first_chars(t, 200), Tone::Content)]]
            + if encode_utf8(t).len() > 200 {
            seq![seq![("  ... ("@ + dec_chars(encode_utf8(t).len()) + " bytes total)"@, Tone::Faint)]]
        } else {
            seq![]
        },
        None => seq![seq![("  (empty coordinate)"@, Tone::Faint)]],
    }
}

/// The lines naming the next and the previous scroll, where there are.
pub open spec fn neighbor_lines(next: Option<Coordinate>, prev: Option<Coordinate>) -> Seq<Seq<(Seq<char>, Tone)>> {
    (match next {
        Some(c) => seq![seq![("  Next: "@, Tone::Label), (coordinate_chars(c), Tone::Link)]],
        None => seq![],
    }) + (match prev {
        Some(c) => seq![seq![("  Prev: "@, Tone::Label), (coordinate_chars(c), Tone::Link)]],
        None => seq![],
    })
}

/// The lattice screen: position, active dimension, the scroll there, its
/// neighbors, and every dimension's value.
pub open spec fn lattice_view_spec(m: MappedLattice, n: NavigatorView) -> Seq<Seq<(Seq<char>, Tone)>> {
    let p = n.position;
    let d = n.active_dimension;
    let cs = coords_of(m.index_view());
    seq![
        seq![("  Position: "@, Tone::Label), (coordinate_chars(p), Tone::Strong)],
        seq![],
        seq![("  Dimension: "@, Tone::Label), (dimension_name(d) + " ("@ + dec_chars(rank(d) as nat) + ")"@, Tone::Accent)],
        seq![],
    ] + content_lines(m.content(p)) + seq![seq![]] + neighbor_lines(next_of(cs, p), prev_of(cs, p)) + seq![
        seq![],
        seq![("  Dimensions: "@, Tone::Faint)],
    ] + Seq::new(9, |i: int| guide_line(p, d, i + 1))
}

/// A one-piece line.
fn one(text: String, tone: Tone) -> (r: Vec<(String, Tone)>)
    ensures
        line_view(r) == seq![(text@, tone)],
{
    let mut l: Vec<(String, Tone)> = Vec::new();
    l.push((text, tone));
    assert(line_view(l) =~= seq![(text@, tone)]);
    l
}

/// A two-piece line.
fn two(a: String, at: Tone, b: String, bt: Tone) -> (r: Vec<(String, Tone)>)
    ensures
        line_view(r) == seq![(a@, at), (b@, bt)],
{
    let mut l: Vec<(String, Tone)> = Vec::new();
    l.push((a, at));
    l.push((b, bt));
    assert(line_view(l) =~= seq![(a@, at), (b@, bt)]);
    l
}

/// An empty line.
fn blank() -> (r: Vec<(String, Tone)>)
    ensures
        line_view(r) == Seq::<(Seq<char>, Tone)>::empty(),
{
    let l: Vec<(String, Tone)> = Vec::new();
    assert(line_view(l) =~= Seq::<(Seq<char>, Tone)>::empty());
    l
}

/// Adds a line.
fn add_line(out: &mut Vec<Vec<(String, Tone)>>, l: Vec<(String, Tone)>)
    ensures
        lines_view(final(out)@) == lines_view(old(out)@).push(line_view(l)),
{
    let ghost o = out@;
    out.push(l);
    assert(lines_view(out@) =~= lines_view(o).push(line_view(l)));
}

/// The text of a coordinate written `z/y/x`.
fn coordinate_string(c: &Coordinate) -> (r: String)
    ensures
        r@ == coordinate_chars(*c),
{
    let mut v: Vec<char> = Vec::new();
    push_coordinate_chars(&mut v, c);
    string_from_chars(v.as_slice())
}

impl NavSession {
    /// Adds the lines showing the scroll at `pos`.
    fn add_content_lines(&self, out: &mut Vec<Vec<(String, Tone)>>, pos: &Coordinate)
        requires
            self.wf(),
        ensures
            lines_view(final(out)@) == lines_view(old(out)@) + content_lines(self.lattice.content(*pos)),
    {
        let ghost head = lines_view(out@);
        match self.lattice.read_scroll(pos) {
            Some(content) => {
                let cs2 = crate::text::chars_vec(content.as_str());
                let n = if cs2.len() <= 200 {
                    cs2.len()
                } else {
                    200
                };
                let mut pv: Vec<char> = Vec::new();
                push_chars(&mut pv, "  ");
                let shown = crate::text::slice_range_chars(cs2.as_slice(), 0, n);
                let mut k: usize = 0;
                let ghost pv0 = pv@;
                while k < shown.len()
                    invariant
                        0 <= k <= shown@.len(),
                        pv@ == pv0 + shown@.take(k as int),
                    decreases shown@.len() - k,
                {
                    pv.push(shown[k]);
                    assert(shown@.take(k + 1) =~= shown@.take(k as int).push(shown@[k as int]));
                    k = k + 1;
                }
                assert(shown@.take(k as int) =~= shown@);
                assert(shown@ =~= first_chars(content@, 200));
                add_line(out, one("  Content: ".to_owned(), Tone::Label));
                add_line(out, one(string_from_chars(pv.as_slice()), Tone::Content));
                let blen = content.as_str().as_bytes().len();
                if blen > 200 {
                    let mut mv: Vec<char> = Vec::new();
                    push_chars(&mut mv, "  ... (");
                    push_dec_chars(&mut mv, blen);
                    push_chars(&mut mv, " bytes total)");
                    add_line(out, one(string_from_chars(mv.as_slice()), Tone::Faint));
                }
            },
            None => {
                add_line(out, one("  (empty coordinate)".to_owned(), Tone::Faint));
            },
        }
        assert(lines_view(out@) =~= head + content_lines(self.lattice.content(*pos)));
    }

    /// Adds the guide line of every dimension.
    fn add_guide_lines(out: &mut Vec<Vec<(String, Tone)>>, pos: &Coordinate, dim: Dimension)
        ensures
            lines_view(final(out)@) == lines_view(old(out)@) + Seq::new(9, |j: int| guide_line(*pos, dim, j + 1)),
    {
        let ghost before_guide = lines_view(out@);
        let mut i: u8 = 1;
        while i <= 9
            invariant
                1 <= i <= 10,
                lines_view(out@) == before_guide + Seq::new((i - 1) as nat, |j: int| guide_line(*pos, dim, j + 1)),
            decreases 10 - i,
        {
            let d = match Dimension::from_index(i) {
                Some(d) => d,
                None => Dimension::Scroll,
            };
            let mut gv: Vec<char> = Vec::new();
            push_chars(&mut gv, "    ");
            push_dec_chars(&mut gv, i as usize);
            push_chars(&mut gv, " ");
            push_chars(&mut gv, d.name());
            push_chars(&mut gv, " = ");
            push_dec_chars(&mut gv, pos.get_dim(d));
            let tone = if d == dim {
                Tone::Selected
            } else {
                Tone::Faint
            };
            let ghost o = lines_view(out@);
            add_line(out, one(string_from_chars(gv.as_slice()), tone));
            assert(gv@ =~= "    "@ + dec_chars(i as nat) + " "@ + dimension_name(d) + " = "@ + dec_chars(dim_val(*pos, d) as nat));
            assert(lines_view(out@) =~= before_guide + Seq::new(i as nat, |j: int| guide_line(*pos, dim, j + 1)));
            i = i + 1;
        }
    }

    /// The lines of the lattice screen.
    #[verifier::rlimit(40)]
    pub fn lattice_view(&self) -> (r: Vec<Vec<(String, Tone)>>)
        requires
            self.wf(),
        ensures
            lines_view(r@) == lattice_view_spec(self.lattice, self.nav@),
    {
        let pos = self.nav.position();
        let dim = self.nav.active_dimension();
        let summary = self.nav.summarize(self.lattice.index());
        let ghost cs = coords_of(self.lattice.index_view());
        proof {
            lemma_next_after_unique(cs, pos, summary.next, next_of(cs, pos));
            lemma_prev_before_unique(cs, pos, summary.prev, prev_of(cs, pos));
        }
        let mut out: Vec<Vec<(String, Tone)>> = Vec::new();
        add_line(&mut out, two("  Position: ".to_owned(), Tone::Label, coordinate_string(&pos), Tone::Strong));
        add_line(&mut out, blank());
        let mut dv: Vec<char> = Vec::new();
        push_chars(&mut dv, dim.name());
        push_chars(&mut dv, " (");
        push_dec_chars(&mut dv, dim.index() as usize);
        push_chars(&mut dv, ")");
        add_line(&mut out, two("  Dimension: ".to_owned(), Tone::Label, string_from_chars(dv.as_slice()), Tone::Accent));
        add_line(&mut out, blank());
        let ghost head = lines_view(out@);
        self.add_content_lines(&mut out, &pos);
        add_line(&mut out, blank());
        let ghost mid = lines_view(out@);
        match summary.next {
            Some(c) => add_line(&mut out, two("  Next: ".to_owned(), Tone::Label, coordinate_string(&c), Tone::Link)),
            None => {},
        }
        match summary.prev {
            Some(c) => add_line(&mut out, two("  Prev: ".to_owned(), Tone::Label, coordinate_string(&c), Tone::Link)),
            None => {},
        }
        assert(lines_view(out@) =~= mid + neighbor_lines(summary.next, summary.prev));
        add_line(&mut out, blank());
        add_line(&mut out, one("  Dimensions: ".to_owned(), Tone::Faint));
        Self::add_guide_lines(&mut out, &pos, dim);
        assert(lines_view(out@) =~= lattice_view_spec(self.lattice, self.nav@));
        out
    }
    pub fn status_line(&self) -> (r: String)
        requires
            self.wf(),
        ensures
            r@ == status_text(self.lattice, self.nav@),
    {
        let pos = self.nav.position();
        let dim = self.nav.active_dimension();
        let (prev, _cur, next) = self.nav.dimension_neighbors();
        let has = self.lattice.has_scroll(&pos);
        let total = self.lattice.index().scroll_count();
        let ghost p = self.nav@.position;
        let ghost d = self.nav@.active_dimension;
        let mut v: Vec<char> = Vec::new();
        push_chars(&mut v, " ");
        push_coordinate_chars(&mut v, &pos);
        push_chars(&mut v, " [dim:");
        push_dec_chars(&mut v, dim.index() as usize);
        push_chars(&mut v, " ");
        push_chars(&mut v, dim.name());
        push_chars(&mut v, "]  \u{2190} ");
        let ghost a = v@;
        assert(a =~= " "@ + coordinate_chars(p) + " [dim:"@ + dec_chars(rank(d) as nat) + " "@ + dimension_name(d) + "]  \u{2190} "@);
        match prev {
            Some(x) => push_dec_chars(&mut v, x),
            None => {
                v.push('\u{2014}');
            },
        }
        let ghost cur = dim_val(p, d);
        assert(v@ =~= a + side_text(if cur > 1 { Some((cur - 1) as usize) } else { None::<usize> }));
        push_chars(&mut v, " | ");
        let ghost b = v@;
        match next {
            Some(x) => push_dec_chars(&mut v, x),
            None => {
                v.push('\u{2014}');
            },
        }
        assert(v@ =~= b + side_text(if cur < COORDINATE_MAXIMUM { Some((cur + 1) as usize) } else { None::<usize> }));
        push_chars(&mut v, " \u{2192}  [");
        push_dec_chars(&mut v, total);
        push_chars(&mut v, " scrolls]");
        if has {
            push_chars(&mut v, " \u{25cf}");
        } else {
            push_chars(&mut v, " \u{25cb}");
        }
        assert(v@ =~= status_text(self.lattice, self.nav@));
        string_from_chars(v.as_slice())
    }

    /// The help line.
    pub fn help_line(&self) -> (r: String)
        ensures
            r@ == help_text(self.mode, self.status_message@),
    {
        match self.mode {
            SessionMode::Lattice => if self.status_message.as_str().unicode_len() == 0 {
                "1-9:dim  h/l:move  j/k:populated  Enter:view  g:goto  /:search  m:mark  ':jump  q:quit".to_owned()
            } else {
                self.status_message.clone()
            },
            SessionMode::ScrollView => "j/k:scroll  PgUp/PgDn  Esc:back".to_owned(),
            SessionMode::GotoInput => "Enter:jump  Esc:cancel".to_owned(),
            SessionMode::SearchInput => "Enter:search  Esc:cancel".to_owned(),
            SessionMode::SearchResults => "j/k:navigate  Enter:jump  Esc:back".to_owned(),
        }
    }
}

/// A text with every line feed shown as a space.
pub open spec fn newlines_as_spaces(t: Seq<char>) -> Seq<char> {
    t.map_values(|c: char| if c == '\n' { ' ' } else { c })
}

/// The row of a search hit: its coordinate, a dash, and its context on
/// one line.
pub open spec fn hit_row(h: SearchHit) -> Seq<char> {
    coordinate_chars(h.coordinate) + " \u{2014} "@ + newlines_as_spaces(h.context@)
}

/// The prompt of an input mode.
pub open spec fn input_prompt(mode: SessionMode) -> Option<Seq<char>> {
    match mode {
        SessionMode::GotoInput => Some("Goto coordinate:"@),
        SessionMode::SearchInput => Some("Search:"@),
        _ => None,
    }
}

impl NavSession {
    /// The rows of the search results, each with whether it is the
    /// selected one.
    pub fn result_rows(&self) -> (r: Vec<(String, bool)>)
        ensures
            r@.len() == self.search_hits@.len(),
            forall|i: int| 0 <= i < r@.len() ==> (#[trigger] r@[i]).0@ == hit_row(self.search_hits@[i])
                && r@[i].1 == (i == self.search_cursor),
    {
        let mut out: Vec<(String, bool)> = Vec::new();
        let mut i: usize = 0;
        while i < self.search_hits.len()
            invariant
                0 <= i <= self.search_hits@.len(),
                out@.len() == i,
                forall|k: int| 0 <= k < i ==> (#[trigger] out@[k]).0@ == hit_row(self.search_hits@[k])
                    && out@[k].1 == (k == self.search_cursor),
            decreases self.search_hits@.len() - i,
        {
            let h = &self.search_hits[i];
            let mut v: Vec<char> = Vec::new();
            push_coordinate_chars(&mut v, &h.coordinate);
            push_chars(&mut v, " \u{2014} ");
            let ghost head = v@;
            let cs = crate::text::chars_vec(h.context.as_str());
            let mut k: usize = 0;
            while k < cs.len()
                invariant
                    0 <= k <= cs@.len(),
                    cs@ == h.context@,
                    v@ == head + newlines_as_spaces(cs@.take(k as int)),
                decreases cs@.len() - k,
            {
                let c = cs[k];
                v.push(if c == '\n' { ' ' } else { c });
                assert(newlines_as_spaces(cs@.take(k + 1)) =~= newlines_as_spaces(cs@.take(k as int)).push(
                    if c == '\n' { ' ' } else { c },
                ));
                k = k + 1;
            }
            assert(cs@.take(k as int) =~= cs@);
            out.push((string_from_chars(v.as_slice()), i == self.search_cursor));
            i = i + 1;
        }
        out
    }

    /// The title of the search results: how many there are.
    pub fn results_title(&self) -> (r: String)
        ensures
            r@ == " Search: "@ + dec_chars(self.search_hits@.len()) + " results "@,
    {
        let mut v: Vec<char> = Vec::new();
        push_chars(&mut v, " Search: ");
        push_dec_chars(&mut v, self.search_hits.len());
        push_chars(&mut v, " results ");
        string_from_chars(v.as_slice())
    }

    /// The title of the scroll view: the position.
    pub fn scroll_title(&self) -> (r: String)
        ensures
            r@ == " "@ + coordinate_chars(self.nav@.position) + " "@,
    {
        let pos = self.nav.position();
        let mut v: Vec<char> = Vec::new();
        push_chars(&mut v, " ");
        push_coordinate_chars(&mut v, &pos);
        push_chars(&mut v, " ");
        string_from_chars(v.as_slice())
    }

    /// The text of the scroll view: the scroll at the position, or nothing.
    pub fn scroll_text(&self) -> (r: String)
        requires
            self.wf(),
        ensures
            r@ == match self.lattice.content(self.nav@.position) {
                Some(t) => t,
                None => Seq::<char>::empty(),
            },
    {
        let pos = self.nav.position();
        match self.lattice.read_scroll(&pos) {
            Some(t) => t,
            None => String::new(),
        }
    }

    /// The line of an input mode: its prompt, the text typed so far and a
    /// cursor; `None` outside the input modes.
    pub fn input_line(&self) -> (r: Option<String>)
        ensures
            r is None <==> input_prompt(self.mode) is None,
            r matches Some(t) ==> t@ == input_prompt(self.mode).unwrap() + " "@ + self.input_buffer@ + "_"@,
    {
        let mut v: Vec<char> = Vec::new();
        match self.mode {
            SessionMode::GotoInput => push_chars(&mut v, "Goto coordinate:"),
            SessionMode::SearchInput => push_chars(&mut v, "Search:"),
            _ => {
                return None;
            },
        }
        push_chars(&mut v, " ");
        let ghost head = v@;
        let mut k: usize = 0;
        while k < self.input_buffer.len()
            invariant
                0 <= k <= self.input_buffer@.len(),
                v@ == head + self.input_buffer@.take(k as int),
            decreases self.input_buffer@.len() - k,
        {
            v.push(self.input_buffer[k]);
            assert(self.input_buffer@.take(k + 1) =~= self.input_buffer@.take(k as int).push(self.input_buffer@[k as int]));
            k = k + 1;
        }
        assert(self.input_buffer@.take(k as int) =~= self.input_buffer@);
        push_chars(&mut v, "_");
        Some(string_from_chars(v.as_slice()))
    }
}

/// Appends a coordinate written `z/y/x`.
fn push_coordinate_chars(v: &mut Vec<char>, c: &Coordinate)
    ensures
        final(v)@ == old(v)@ + coordinate_chars(*c),
{
    let ghost start = v@;
    push_arm_chars(v, (c.z.library, c.z.shelf, c.z.series));
    v.push('/');
    push_arm_chars(v, (c.y.collection, c.y.volume, c.y.book));
    v.push('/');
    push_arm_chars(v, (c.x.chapter, c.x.section, c.x.scroll));
    assert(v@ =~= start + coordinate_chars(*c));
}

/// Appends `a.b.c`.
fn push_arm_chars(v: &mut Vec<char>, k: (usize, usize, usize))
    ensures
        final(v)@ == old(v)@ + arm_label(k),
{
    let ghost start = v@;
    push_dec_chars(v, k.0);
    v.push('.');
    push_dec_chars(v, k.1);
    v.push('.');
    push_dec_chars(v, k.2);
    assert(v@ =~= start + arm_label(k));
}

} // verus!
