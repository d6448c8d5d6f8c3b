//! The editing context that editor modes work through: the text of one
//! scroll, its cursor and its undo history.
use vstd::prelude::*;
use vstd::utf8::{encode_utf8, is_char_boundary, valid_utf8};

use crate::coordinate::Coordinate;
use crate::cursor::{
    bytes_of, chars_left, chars_right, cs_at, lemma_chars_left, lemma_chars_right, lemma_starts_char_boundary, offset_chars_left, offset_chars_right, offset_of, pos_le, position_of_offset, CursorState, Position,
    ScrollCursor, Selection,
};
use crate::text::{line_spans, lines_of, substring};
use crate::undo::{
    apply_spec, can_apply, engine_wf, history_of, inverse_spec, recorded, with_cursor, EditOp,
    EditOpView, EngineView, UndoEngine,
};

verus! {

/// What handling a key did.
#[derive(Debug, Clone, PartialEq)]
pub enum EditResult {
    /// Nothing changed.
    Nothing,
    /// The cursor moved; the text did not change.
    CursorMoved,
    /// The text changed.
    TextChanged,
    /// Leave editing and return to lattice navigation.
    ExitEdit,
    /// A status message to show.
    Status(String),
}

/// What handling a key did, the message as characters.
pub enum ResultView {
    Nothing,
    CursorMoved,
    TextChanged,
    ExitEdit,
    Status(Seq<char>),
}

impl View for EditResult {
    type V = ResultView;

    open spec fn view(&self) -> ResultView {
        match self {
            EditResult::Nothing => ResultView::Nothing,
            EditResult::CursorMoved => ResultView::CursorMoved,
            EditResult::TextChanged => ResultView::TextChanged,
            EditResult::ExitEdit => ResultView::ExitEdit,
            EditResult::Status(s) => ResultView::Status(s@),
        }
    }
}

/// How the cursor is drawn.
#[derive(Debug, Clone, Copy, PartialEq, Eq, Structural)]
pub enum CursorStyle {
    /// A block (vim's normal mode).
    Block,
    /// A bar (vim's insert mode).
    Line,
    /// An underline.
    Underline,
}

/// A key press, independent of any terminal or window library.
#[derive(Debug, Clone, Copy, PartialEq, Eq, Structural)]
pub struct EditKey {
    pub code: EditKeyCode,
    pub ctrl: bool,
    pub alt: bool,
    pub shift: bool,
}

/// The key that was pressed.
#[derive(Debug, Clone, Copy, PartialEq, Eq, Structural)]
pub enum EditKeyCode {
    Char(char),
    Enter,
    Backspace,
    Delete,
    Escape,
    Left,
    Right,
    Up,
    Down,
    Home,
    End,
    PageUp,
    PageDown,
    Tab,
}

impl EditKey {
    /// A plain character key.
    pub fn char(c: char) -> (r: EditKey)
        ensures
            r == (EditKey { code: EditKeyCode::Char(c), ctrl: false, alt: false, shift: false }),
    {
        EditKey { code: EditKeyCode::Char(c), ctrl: false, alt: false, shift: false }
    }

    /// A character key with Ctrl held.
    pub fn ctrl(c: char) -> (r: EditKey)
        ensures
            r == (EditKey { code: EditKeyCode::Char(c), ctrl: true, alt: false, shift: false }),
    {
        EditKey { code: EditKeyCode::Char(c), ctrl: true, alt: false, shift: false }
    }

    /// A key that is not a character.
    pub fn special(code: EditKeyCode) -> (r: EditKey)
        ensures
            r == (EditKey { code, ctrl: false, alt: false, shift: false }),
    {
        EditKey { code, ctrl: false, alt: false, shift: false }
    }
}


/// The text (as UTF-8 bytes), cursor and undo history a context edits.
pub struct ContextView {
    pub text: Seq<u8>,
    pub cursor: CursorState,
    pub undo: EngineView,
}

/// The state after inserting `s` at the cursor: the text gets `s`, the
/// cursor moves past it, and the insertion is recorded for scroll `c`.
pub open spec fn cv_insert(v: ContextView, c: Coordinate, s: Seq<u8>) -> ContextView {
    let op = insertion_at_cursor(v, s);
    let t = apply_spec(op, v.text);
    let cur = cs_at(position_of_offset(t, offset_of(t, v.cursor.selection.head) + s.len()));
    ContextView {
        text: t,
        cursor: cur,
        undo: recorded(v.undo, c, op, v.cursor.selection.head, cur.selection.head),
    }
}

/// The insertion of `s` at the cursor.
pub open spec fn insertion_at_cursor(v: ContextView, s: Seq<u8>) -> EditOpView {
    EditOpView::Insert { offset: offset_of(v.text, v.cursor.selection.head) as usize, text: s }
}

/// Whether inserting `s` at the cursor stays within the machine's limits:
/// the edit count and the cursor's move past `s` fit in a `usize`.
pub open spec fn insert_ok(v: ContextView, s: Seq<u8>) -> bool {
    &&& engine_wf(v.undo)
    &&& v.undo.global < usize::MAX
    &&& offset_of(apply_spec(insertion_at_cursor(v, s), v.text), v.cursor.selection.head) + s.len()
        <= usize::MAX
}

/// The state after a deletion `op` that leaves the cursor at byte `at`.
pub open spec fn cv_deleted(v: ContextView, c: Coordinate, op: EditOpView, at: nat) -> ContextView {
    let t = apply_spec(op, v.text);
    let cur = cs_at(position_of_offset(t, at));
    ContextView {
        text: t,
        cursor: cur,
        undo: recorded(v.undo, c, op, v.cursor.selection.head, cur.selection.head),
    }
}

/// Where a backspace over `n` characters starts.
pub open spec fn backspace_start(v: ContextView, n: nat) -> nat {
    chars_left(v.text, offset_of(v.text, v.cursor.selection.head), n)
}

/// The state after deleting `n` characters before the cursor (nothing happens at
/// the start of the text); the cursor moves to where the deletion began.
pub open spec fn cv_delete_backward(v: ContextView, c: Coordinate, n: nat) -> ContextView {
    let o = offset_of(v.text, v.cursor.selection.head);
    let s = backspace_start(v, n);
    if o == 0 {
        v
    } else {
        cv_deleted(v, c, EditOpView::Delete { offset: s as usize, deleted: v.text.subrange(s as int, o as int) }, s)
    }
}

/// Whether a backspace can be recorded: the history is well formed and the
/// edit count fits.
pub open spec fn delete_backward_ok(v: ContextView, n: nat) -> bool {
    &&& engine_wf(v.undo)
    &&& v.undo.global < usize::MAX
}

/// Where a forward deletion of `n` characters ends.
pub open spec fn forward_end(v: ContextView, n: nat) -> nat {
    chars_right(v.text, offset_of(v.text, v.cursor.selection.head), n)
}

/// The state after deleting `n` characters at the cursor (nothing happens at
/// the end of the text); the cursor stays.
pub open spec fn cv_delete_forward(v: ContextView, c: Coordinate, n: nat) -> ContextView {
    let o = offset_of(v.text, v.cursor.selection.head);
    let e = forward_end(v, n);
    if o >= v.text.len() {
        v
    } else {
        let op = EditOpView::Delete { offset: o as usize, deleted: v.text.subrange(o as int, e as int) };
        ContextView {
            text: apply_spec(op, v.text),
            cursor: v.cursor,
            undo: recorded(v.undo, c, op, v.cursor.selection.head, v.cursor.selection.head),
        }
    }
}

/// Whether a forward deletion can be recorded: the history is well formed
/// and the edit count fits.
pub open spec fn delete_forward_ok(v: ContextView, n: nat) -> bool {
    &&& engine_wf(v.undo)
    &&& v.undo.global < usize::MAX
}

/// The state after deleting from the cursor to byte offset `e`: the cursor
/// first settles on the character start of its offset, then the bytes up
/// to `e` (when `e` lies after it) are deleted and the cursor stays.
pub open spec fn cv_delete_to(v: ContextView, c: Coordinate, e: nat) -> ContextView {
    let o = offset_of(v.text, v.cursor.selection.head);
    let cur = cs_at(position_of_offset(v.text, o));
    if e > o {
        let op = EditOpView::Delete { offset: o as usize, deleted: v.text.subrange(o as int, e as int) };
        ContextView {
            text: apply_spec(op, v.text),
            cursor: cur,
            undo: recorded(v.undo, c, op, cur.selection.head, cur.selection.head),
        }
    } else {
        ContextView { cursor: cur, ..v }
    }
}

/// The offset line `k` is taken to start at: the lengths of the lines
/// before it, each plus one for its line feed.
pub open spec fn line_offset(b: Seq<u8>, k: int) -> nat
    decreases k,
{
    if k <= 0 {
        0
    } else {
        line_offset(b, k - 1) + (lines_of(b)[k - 1].1 - lines_of(b)[k - 1].0) as nat + 1
    }
}

/// The byte range that deleting line `k` removes: from its offset over its
/// length, plus one byte when that does not reach the end of the text.
pub open spec fn line_range(b: Seq<u8>, k: int) -> (nat, nat) {
    let s = line_offset(b, k);
    let le = s + (lines_of(b)[k].1 - lines_of(b)[k].0) as nat;
    (s, if le < b.len() { le + 1 } else { le })
}

/// The state after deleting the cursor's line (nothing happens beyond the
/// last line); the cursor moves to where the line was.
pub open spec fn cv_delete_line(v: ContextView, c: Coordinate) -> ContextView {
    let k = v.cursor.selection.head.line as int;
    if k >= lines_of(v.text).len() {
        v
    } else {
        let (s, e) = line_range(v.text, k);
        cv_deleted(v, c, EditOpView::Delete { offset: s as usize, deleted: v.text.subrange(s as int, e as int) }, s)
    }
}

/// Whether the cursor's line can be deleted: its range lies on character
/// boundaries and the edit count fits.
pub open spec fn delete_line_ok(v: ContextView) -> bool {
    let k = v.cursor.selection.head.line as int;
    &&& engine_wf(v.undo)
    &&& v.undo.global < usize::MAX
    &&& (k < lines_of(v.text).len() ==> {
        &&& is_char_boundary(v.text, line_range(v.text, k).0 as int)
        &&& is_char_boundary(v.text, line_range(v.text, k).1 as int)
    })
}

/// The earlier end of a selection.
pub open spec fn sel_start(s: Selection) -> Position {
    if pos_le(s.anchor, s.head) {
        s.anchor
    } else {
        s.head
    }
}

/// The later end of a selection.
pub open spec fn sel_end(s: Selection) -> Position {
    if pos_le(s.anchor, s.head) {
        s.head
    } else {
        s.anchor
    }
}

/// The state after replacing the selection with `n` (nothing happens for a
/// plain cursor); the cursor lands after the new text.
pub open spec fn cv_replace_selection(v: ContextView, c: Coordinate, n: Seq<u8>) -> ContextView {
    let sel = v.cursor.selection;
    if sel.anchor == sel.head {
        v
    } else {
        let st = offset_of(v.text, sel_start(sel));
        let en = offset_of(v.text, sel_end(sel));
        let op = EditOpView::Replace { offset: st as usize, old_text: v.text.subrange(st as int, en as int), new_text: n };
        cv_deleted(v, c, op, st + n.len())
    }
}

/// Whether the selection can be replaced with `n`: its start offset is not
/// after its end offset, and the new end and the edit count fit.
pub open spec fn replace_selection_ok(v: ContextView, n: Seq<u8>) -> bool {
    let sel = v.cursor.selection;
    &&& engine_wf(v.undo)
    &&& v.undo.global < usize::MAX
    &&& (sel.anchor != sel.head ==> {
        &&& offset_of(v.text, sel_start(sel)) <= offset_of(v.text, sel_end(sel))
        &&& offset_of(v.text, sel_start(sel)) + n.len() <= usize::MAX
    })
}

/// The state after undoing the last edit of scroll `c`, and whether there
/// was one.
pub open spec fn cv_undo(v: ContextView, c: Coordinate) -> (ContextView, bool) {
    let h = history_of(v.undo, c);
    if h.cursor == 0 {
        (v, false)
    } else {
        let rec = h.records[h.cursor - 1];
        (
            ContextView {
                text: apply_spec(inverse_spec(rec.op), v.text),
                cursor: cs_at(rec.before),
                undo: with_cursor(v.undo, c, (h.cursor - 1) as nat),
            },
            true,
        )
    }
}

/// Whether undoing can be done: the reverting edit applies to the text.
pub open spec fn undo_ok(v: ContextView, c: Coordinate) -> bool {
    let h = history_of(v.undo, c);
    &&& engine_wf(v.undo)
    &&& (h.cursor > 0 ==> can_apply(inverse_spec(h.records[h.cursor - 1].op), v.text))
}

/// The state after redoing the next undone edit of scroll `c`, and whether
/// there was one.
pub open spec fn cv_redo(v: ContextView, c: Coordinate) -> (ContextView, bool) {
    let h = history_of(v.undo, c);
    if h.cursor >= h.records.len() {
        (v, false)
    } else {
        let rec = h.records[h.cursor as int];
        (
            ContextView {
                text: apply_spec(rec.op, v.text),
                cursor: cs_at(rec.after),
                undo: with_cursor(v.undo, c, h.cursor + 1),
            },
            true,
        )
    }
}

/// Whether redoing can be done: the edit applies to the text.
pub open spec fn redo_ok(v: ContextView, c: Coordinate) -> bool {
    let h = history_of(v.undo, c);
    &&& engine_wf(v.undo)
    &&& (h.cursor < h.records.len() ==> can_apply(h.records[h.cursor as int].op, v.text))
}


/// A line's offset is never past where the line starts.
proof fn lemma_line_offset_bound(b: Seq<u8>, k: int)
    requires
        0 <= k < lines_of(b).len(),
    ensures
        line_offset(b, k) <= lines_of(b)[k].0,
    decreases k,
{
    if k > 0 {
        lemma_line_offset_bound(b, k - 1);
        crate::text::lemma_lines_ordered(b, k - 1);
    }
}


/// A string holding one line feed.
pub fn newline() -> (r: String)
    ensures
        encode_utf8(r@) == seq![10u8],
{
    let v: Vec<u8> = vec![10u8];
    proof {
        assert(crate::text::all_ascii(v@));
        crate::text::lemma_ascii_valid(v@);
    }
    crate::text::string_of_bytes(v)
}


/// The editing context handed to editor modes.
pub struct EditContext<'a> {
    /// The scroll being edited.
    pub coordinate: Coordinate,
    /// Its text.
    pub text: &'a mut String,
    /// Its cursor.
    pub cursor: &'a mut ScrollCursor,
    /// Its undo history.
    pub undo: &'a mut UndoEngine,
}

impl<'a> EditContext<'a> {
    /// What the context edits.
    pub open spec fn cv(&self) -> ContextView {
        ContextView { text: encode_utf8((*self.text)@), cursor: self.cursor.state(), undo: (*self.undo)@ }
    }

    pub fn new(
        coordinate: Coordinate,
        text: &'a mut String,
        cursor: &'a mut ScrollCursor,
        undo: &'a mut UndoEngine,
    ) -> (r: EditContext<'a>)
        ensures
            r.coordinate == coordinate,
            r.cv() == (ContextView {
                text: encode_utf8((*old(text))@),
                cursor: old(cursor).state(),
                undo: (*old(undo))@,
            }),
            *final(r.text) == *final(text),
            *final(r.cursor) == *final(cursor),
            *final(r.undo) == *final(undo),
    {
        EditContext { coordinate, text, cursor, undo }
    }

    /// Inserts `s` at the cursor.
    pub fn insert(&mut self, s: &str)
        requires
            insert_ok(old(self).cv(), encode_utf8(s@)),
        ensures
            final(self).cv() == cv_insert(old(self).cv(), old(self).coordinate, encode_utf8(s@)),
            final(self).coordinate == old(self).coordinate,
            final(self).cursor.extra_selections == old(self).cursor.extra_selections,
    {
        let ghost v = self.cv();
        let offset = self.cursor.position().to_offset(self.text);
        let cursor_before = self.cursor.position();
        let op = EditOp::Insert { offset, text: s.to_string() };
        proof {
            vstd::utf8::encode_utf8_valid_utf8((*self.text)@);
            crate::cursor::lemma_offset_boundary(v.text, cursor_before.line as nat, cursor_before.col as nat, 0);
            crate::cursor::lemma_offset_search_le(v.text, cursor_before.line as nat, cursor_before.col as nat, 0);
        }
        let t = op.apply(self.text);
        *self.text = t;
        let at = self.cursor.position().to_offset(self.text);
        self.cursor.move_to(Position::from_offset(self.text, at + s.len()));
        let cursor_after = self.cursor.position();
        self.undo.record(self.coordinate, op, cursor_before, cursor_after);
    }

    /// Inserts a line feed at the cursor.
    pub fn insert_newline(&mut self)
        requires
            insert_ok(old(self).cv(), seq![10u8]),
        ensures
            final(self).cv() == cv_insert(old(self).cv(), old(self).coordinate, seq![10u8]),
            final(self).coordinate == old(self).coordinate,
            final(self).cursor.extra_selections == old(self).cursor.extra_selections,
    {
        let nl = newline();
        self.insert(nl.as_str());
    }

    /// Deletes the text from `start` to the cursor offset `end` with a
    /// recorded deletion, and moves the cursor to `at`.
    fn delete_range(&mut self, start: usize, end: usize, at: usize)
        requires
            start <= end <= old(self).cv().text.len(),
            is_char_boundary(old(self).cv().text, start as int),
            is_char_boundary(old(self).cv().text, end as int),
            engine_wf(old(self).cv().undo),
            old(self).cv().undo.global < usize::MAX,
        ensures
            final(self).cv() == cv_deleted(
                old(self).cv(),
                old(self).coordinate,
                EditOpView::Delete { offset: start, deleted: old(self).cv().text.subrange(start as int, end as int) },
                at as nat,
            ),
            final(self).coordinate == old(self).coordinate,
            final(self).cursor.extra_selections == old(self).cursor.extra_selections,
    {
        let ghost v = self.cv();
        proof {
            vstd::utf8::encode_utf8_valid_utf8((*self.text)@);
        }
        let deleted = substring(self.text.as_str(), start, end);
        let cursor_before = self.cursor.position();
        let op = EditOp::Delete { offset: start, deleted };
        let t = op.apply(self.text);
        *self.text = t;
        self.cursor.move_to(Position::from_offset(self.text, at));
        let cursor_after = self.cursor.position();
        self.undo.record(self.coordinate, op, cursor_before, cursor_after);
    }

    /// Deletes `n` characters before the cursor (backspace).
    pub fn delete_backward(&mut self, n: usize)
        requires
            delete_backward_ok(old(self).cv(), n as nat),
        ensures
            final(self).cv() == cv_delete_backward(old(self).cv(), old(self).coordinate, n as nat),
            final(self).coordinate == old(self).coordinate,
            final(self).cursor.extra_selections == old(self).cursor.extra_selections,
    {
        let ghost v = self.cv();
        let head = self.cursor.position();
        let offset = head.to_offset(self.text);
        if offset == 0 {
            return;
        }
        proof {
            vstd::utf8::encode_utf8_valid_utf8((*self.text)@);
            crate::cursor::lemma_offset_boundary(v.text, head.line as nat, head.col as nat, 0);
            crate::cursor::lemma_offset_search_le(v.text, head.line as nat, head.col as nat, 0);
        }
        let start = offset_chars_left(self.text.as_str(), offset, n);
        proof {
            lemma_chars_left(v.text, offset as nat, n as nat);
            if start != offset {
                lemma_starts_char_boundary(v.text, start as nat);
            }
        }
        self.delete_range(start, offset, start);
    }

    /// Deletes `n` characters at the cursor (delete key).
    pub fn delete_forward(&mut self, n: usize)
        requires
            delete_forward_ok(old(self).cv(), n as nat),
        ensures
            final(self).cv() == cv_delete_forward(old(self).cv(), old(self).coordinate, n as nat),
            final(self).coordinate == old(self).coordinate,
            final(self).cursor.extra_selections == old(self).cursor.extra_selections,
    {
        let ghost v = self.cv();
        let head = self.cursor.position();
        let offset = head.to_offset(self.text);
        let len = self.text.as_str().as_bytes().len();
        if offset >= len {
            return;
        }
        proof {
            vstd::utf8::encode_utf8_valid_utf8((*self.text)@);
            crate::cursor::lemma_offset_boundary(v.text, head.line as nat, head.col as nat, 0);
        }
        let end = offset_chars_right(self.text.as_str(), offset, n);
        proof {
            lemma_chars_right(v.text, offset as nat, n as nat);
            if end != offset {
                lemma_starts_char_boundary(v.text, end as nat);
            }
        }
        let deleted = substring(self.text.as_str(), offset, end);
        let op = EditOp::Delete { offset, deleted };
        let t = op.apply(self.text);
        *self.text = t;
        self.undo.record(self.coordinate, op, head, head);
    }

    /// Deletes from the cursor to byte offset `end` (an operator applied up
    /// to a motion's target); the cursor stays where the deletion begins.
    pub(crate) fn delete_to(&mut self, end: usize)
        requires
            end <= old(self).cv().text.len(),
            is_char_boundary(old(self).cv().text, end as int),
            engine_wf(old(self).cv().undo),
            old(self).cv().undo.global < usize::MAX,
        ensures
            final(self).cv() == cv_delete_to(old(self).cv(), old(self).coordinate, end as nat),
            final(self).coordinate == old(self).coordinate,
            final(self).cursor.extra_selections == old(self).cursor.extra_selections,
    {
        let ghost v = self.cv();
        let head = self.cursor.position();
        let start = head.to_offset(self.text);
        proof {
            vstd::utf8::encode_utf8_valid_utf8((*self.text)@);
            crate::cursor::lemma_offset_boundary(v.text, head.line as nat, head.col as nat, 0);
            crate::cursor::lemma_offset_search_le(v.text, head.line as nat, head.col as nat, 0);
        }
        self.cursor.move_to(Position::from_offset(self.text, start));
        if end > start {
            let p = self.cursor.position();
            let deleted = substring(self.text.as_str(), start, end);
            let op = EditOp::Delete { offset: start, deleted };
            let t = op.apply(self.text);
            *self.text = t;
            self.undo.record(self.coordinate, op, p, p);
        }
    }

    /// Deletes the cursor's line.
    pub fn delete_line(&mut self)
        requires
            delete_line_ok(old(self).cv()),
        ensures
            final(self).cv() == cv_delete_line(old(self).cv(), old(self).coordinate),
            final(self).coordinate == old(self).coordinate,
            final(self).cursor.extra_selections == old(self).cursor.extra_selections,
    {
        let ghost v = self.cv();
        let line = self.cursor.position().line;
        let b = self.text.as_str().as_bytes();
        let spans = line_spans(b);
        if line >= spans.len() {
            return;
        }
        let mut offset: usize = 0;
        let mut i: usize = 0;
        let blen = b.len();
        proof {
            crate::text::lemma_lines_bounded(b@);
            lemma_line_offset_bound(b@, 0);
        }
        while i < line
            invariant
                0 <= i <= line < spans@.len(),
                spans@.len() == lines_of(b@).len(),
                b@ == v.text,
                forall|k: int|
                    0 <= k < spans@.len() ==> (#[trigger] spans@[k]).0 as nat == lines_of(b@)[k].0
                        && spans@[k].1 as nat == lines_of(b@)[k].1,
                offset as nat == line_offset(b@, i as int),
                line_offset(b@, i as int) <= lines_of(b@)[i as int].0,
                blen == b@.len(),
            decreases line - i,
        {
            proof {
                crate::text::lemma_lines_ordered(b@, i as int);
                crate::text::lemma_lines_ordered(b@, i + 1);
                crate::text::lemma_lines_bounded(b@);
                assert(crate::text::ascii_bounded(b@, lines_of(b@)[i + 1].0 as int, lines_of(b@)[i + 1].1 as int));
                lemma_line_offset_bound(b@, i + 1);
            }
            offset = offset + (spans[i].1 - spans[i].0) + 1;
            i = i + 1;
        }
        let (s, e) = spans[line];
        let line_end = offset + (e - s);
        let len = b.len();
        let end = if line_end < len {
            line_end + 1
        } else {
            line_end
        };
        self.delete_range(offset, end, offset);
    }

    /// Replaces the selection with `new_text`; nothing happens for a plain
    /// cursor.
    pub fn replace_selection(&mut self, new_text: &str)
        requires
            replace_selection_ok(old(self).cv(), encode_utf8(new_text@)),
        ensures
            final(self).cv() == cv_replace_selection(old(self).cv(), old(self).coordinate, encode_utf8(new_text@)),
            final(self).coordinate == old(self).coordinate,
            final(self).cursor.extra_selections == old(self).cursor.extra_selections,
    {
        let ghost v = self.cv();
        let sel = self.cursor.selection;
        if sel.is_cursor() {
            return;
        }
        let sp = sel.start();
        let ep = sel.end();
        let start = sp.to_offset(self.text);
        let end = ep.to_offset(self.text);
        proof {
            vstd::utf8::encode_utf8_valid_utf8((*self.text)@);
            crate::cursor::lemma_offset_boundary(v.text, sp.line as nat, sp.col as nat, 0);
            crate::cursor::lemma_offset_boundary(v.text, ep.line as nat, ep.col as nat, 0);
            crate::cursor::lemma_offset_search_le(v.text, ep.line as nat, ep.col as nat, 0);
        }
        let old_text = substring(self.text.as_str(), start, end);
        let cursor_before = self.cursor.position();
        let op = EditOp::Replace { offset: start, old_text, new_text: new_text.to_string() };
        let t = op.apply(self.text);
        *self.text = t;
        let new_end = start + new_text.len();
        self.cursor.move_to(Position::from_offset(self.text, new_end));
        let cursor_after = self.cursor.position();
        self.undo.record(self.coordinate, op, cursor_before, cursor_after);
    }

    /// Undoes the last edit of the scroll; `false` when there is none.
    pub fn undo(&mut self) -> (r: bool)
        requires
            undo_ok(old(self).cv(), old(self).coordinate),
        ensures
            (final(self).cv(), r) == cv_undo(old(self).cv(), old(self).coordinate),
            final(self).coordinate == old(self).coordinate,
            final(self).cursor.extra_selections == old(self).cursor.extra_selections,
    {
        match self.undo.undo(&self.coordinate) {
            Some((op, p)) => {
                let t = op.apply(self.text);
                *self.text = t;
                self.cursor.move_to(p);
                true
            },
            None => false,
        }
    }

    /// Redoes the next undone edit of the scroll; `false` when there is
    /// none.
    pub fn redo(&mut self) -> (r: bool)
        requires
            redo_ok(old(self).cv(), old(self).coordinate),
        ensures
            (final(self).cv(), r) == cv_redo(old(self).cv(), old(self).coordinate),
            final(self).coordinate == old(self).coordinate,
            final(self).cursor.extra_selections == old(self).cursor.extra_selections,
    {
        match self.undo.redo(&self.coordinate) {
            Some((op, p)) => {
                let t = op.apply(self.text);
                *self.text = t;
                self.cursor.move_to(p);
                true
            },
            None => false,
        }
    }
}


/// An editing mode: it reads keys and edits through the context.
pub trait EditorMode {
    /// Whether the mode can handle `key` on a context in state `cv` for
    /// scroll `coord` (what the edits it would make need).
    spec fn accepts(&self, key: EditKey, cv: ContextView, coord: Coordinate) -> bool;

    /// The mode's name, for the status bar.
    fn name(&self) -> &str;

    /// Handles a key press.
    fn handle_key(&mut self, key: EditKey, ctx: &mut EditContext) -> EditResult
        requires
            old(self).accepts(key, old(ctx).cv(), old(ctx).coordinate),
    ;

    /// How the cursor is drawn in this mode.
    fn cursor_style(&self) -> CursorStyle;

    /// The key hints for the status bar.
    fn status_hint(&self) -> &str;

    /// The mode to switch to after a key, if any.
    fn transition(&mut self) -> Option<Box<Self>>
        where
            Self: Sized,
    ;
}

} // verus!

verus! {

/// Inserting at the cursor and then undoing gives the text back and puts
/// the cursor where it was; afterwards the insertion can be redone.
pub proof fn lemma_insert_then_undo(v: ContextView, c: Coordinate, s: Seq<u8>)
    requires
        insert_ok(v, s),
    ensures
        ({
            let (u, done) = cv_undo(cv_insert(v, c, s), c);
            &&& done
            &&& u.text == v.text
            &&& u.cursor == cs_at(v.cursor.selection.head)
            &&& history_of(u.undo, c).cursor < history_of(u.undo, c).records.len()
        }),
{
    let op = insertion_at_cursor(v, s);
    crate::cursor::lemma_offset_search_le(v.text, v.cursor.selection.head.line as nat, v.cursor.selection.head.col as nat, 0);
    crate::undo::lemma_inverse_restores(op, v.text);
    let w = cv_insert(v, c, s);
    crate::undo::lemma_record_then_undo(v.undo, c, op, v.cursor.selection.head, w.cursor.selection.head);
    let h = history_of(w.undo, c);
    crate::undo::lemma_history_set(w.undo, c, crate::undo::HistoryView { records: h.records, cursor: (h.cursor - 1) as nat }, w.undo.global);
}

/// Deleting before the cursor and then undoing gives the text back and
/// puts the cursor where it was.
pub proof fn lemma_delete_backward_then_undo(v: ContextView, c: Coordinate, n: nat)
    requires
        delete_backward_ok(v, n),
        offset_of(v.text, v.cursor.selection.head) > 0,
        v.text.len() <= usize::MAX,
    ensures
        ({
            let (u, done) = cv_undo(cv_delete_backward(v, c, n), c);
            &&& done
            &&& u.text == v.text
            &&& u.cursor == cs_at(v.cursor.selection.head)
        }),
{
    let o = offset_of(v.text, v.cursor.selection.head);
    let st = backspace_start(v, n);
    crate::cursor::lemma_offset_search_le(v.text, v.cursor.selection.head.line as nat, v.cursor.selection.head.col as nat, 0);
    lemma_chars_left(v.text, o, n);
    let op = EditOpView::Delete { offset: st as usize, deleted: v.text.subrange(st as int, o as int) };
    crate::undo::lemma_inverse_restores(op, v.text);
    let w = cv_delete_backward(v, c, n);
    crate::undo::lemma_record_then_undo(v.undo, c, op, v.cursor.selection.head, w.cursor.selection.head);
}

} // verus!
