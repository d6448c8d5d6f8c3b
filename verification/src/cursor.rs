//! The cursor inside one scroll: a position (line and column), a selection
//! between an anchor and a head, and a remembered column for vertical moves.
//!
//! Offsets are byte offsets into the scroll text; columns count characters.
use vstd::prelude::*;
use vstd::utf8::{encode_utf8, is_char_boundary, valid_utf8};

use crate::coordinate::decimal;
use crate::text::{
    ascii_whitespace, char_starts, count_char_starts, is_ascii_ws, is_continuation, line_spans,
    lines_of, position_at, push_decimal, string_of_bytes, all_ascii, lemma_ascii_valid,
    lemma_decimal_ascii, lemma_position_bounded,
};

verus! {

/// A position within a scroll's text.
#[derive(Debug, Clone, Copy, PartialEq, Eq, Structural)]
pub struct Position {
    /// Line number (0-indexed).
    pub line: usize,
    /// Column (0-indexed, in characters).
    pub col: usize,
}

/// The position with the given line and column.
pub open spec fn pos(line: nat, col: nat) -> Position {
    Position { line: line as usize, col: col as usize }
}

/// The UTF-8 bytes of a text.
pub open spec fn bytes_of(t: &str) -> Seq<u8> {
    encode_utf8(t@)
}

/// Whether byte `i` of `b` is where the cursor may land for `(line, col)`:
/// a character start whose position is `(line, col)`, or the line feed
/// that ends `line` when the column lies beyond it.
pub open spec fn offset_matches(b: Seq<u8>, line: nat, col: nat, i: int) -> bool {
    &&& 0 <= i < b.len()
    &&& !is_continuation(b[i])
    &&& (position_at(b, i as nat) == (line, col) || (b[i] == 0x0A && position_at(b, i as nat).0 == line))
}

/// The first byte from `i` on that matches `(line, col)`, or the length.
pub open spec fn offset_search(b: Seq<u8>, line: nat, col: nat, i: nat) -> nat
    decreases b.len() - i,
{
    if i >= b.len() {
        b.len()
    } else if offset_matches(b, line, col, i as int) {
        i
    } else {
        offset_search(b, line, col, i + 1)
    }
}

/// The byte offset of position `p` in `b`.
pub open spec fn offset_of(b: Seq<u8>, p: Position) -> nat {
    offset_search(b, p.line as nat, p.col as nat, 0)
}

/// The position reached at byte offset `offset` (clamped to the text).
pub open spec fn position_of_offset(b: Seq<u8>, offset: nat) -> Position {
    let n = if offset <= b.len() {
        offset
    } else {
        b.len()
    };
    pos(position_at(b, n).0, position_at(b, n).1)
}

/// The bytes of `Position`'s display form, `line+1:col+1`.
pub open spec fn position_text(p: Position) -> Seq<u8> {
    decimal((p.line + 1) as nat) + seq![58u8] + decimal((p.col + 1) as nat)
}

/// Line then column order on positions.
pub open spec fn pos_le(a: Position, b: Position) -> bool {
    a.line < b.line || (a.line == b.line && a.col <= b.col)
}

impl Position {
    pub fn new(line: usize, col: usize) -> (r: Position)
        ensures
            r == (Position { line, col }),
    {
        Position { line, col }
    }

    pub fn origin() -> (r: Position)
        ensures
            r == (Position { line: 0, col: 0 }),
    {
        Position { line: 0, col: 0 }
    }

    /// The position at byte offset `offset` of `text` (clamped to the text).
    pub fn from_offset(text: &str, offset: usize) -> (r: Position)
        ensures
            r == position_of_offset(bytes_of(text), offset as nat),
    {
        let b = text.as_bytes();
        let n = if offset < b.len() {
            offset
        } else {
            b.len()
        };
        let mut line: usize = 0;
        let mut col: usize = 0;
        let mut i: usize = 0;
        while i < n
            invariant
                0 <= i <= n <= b@.len(),
                b@ == bytes_of(text),
                (line as nat, col as nat) == position_at(b@, i as nat),
            decreases n - i,
        {
            proof {
                lemma_position_bounded(b@, i as nat);
            }
            let ch = b[i];
            if ch == 0x0A {
                line = line + 1;
                col = 0;
            } else if !(0x80 <= ch && ch < 0xC0) {
                col = col + 1;
            }
            i = i + 1;
        }
        Position { line, col }
    }

    /// The byte offset of this position in `text`: the start of the
    /// character at this line and column, the line feed ending the line when
    /// the column lies beyond it, or the end of the text.
    pub fn to_offset(&self, text: &str) -> (r: usize)
        ensures
            r as nat == offset_of(bytes_of(text), *self),
    {
        let b = text.as_bytes();
        let n = b.len();
        let mut current_line: usize = 0;
        let mut current_col: usize = 0;
        let mut i: usize = 0;
        while i < n
            invariant
                0 <= i <= n == b@.len(),
                b@ == bytes_of(text),
                (current_line as nat, current_col as nat) == position_at(b@, i as nat),
                offset_search(b@, self.line as nat, self.col as nat, 0) == offset_search(
                    b@,
                    self.line as nat,
                    self.col as nat,
                    i as nat,
                ),
            decreases n - i,
        {
            proof {
                lemma_position_bounded(b@, i as nat);
            }
            let ch = b[i];
            if !(0x80 <= ch && ch < 0xC0) {
                if current_line == self.line && current_col == self.col {
                    return i;
                }
                if ch == 0x0A && current_line == self.line {
                    return i;
                }
            }
            if ch == 0x0A {
                current_line = current_line + 1;
                current_col = 0;
            } else if !(0x80 <= ch && ch < 0xC0) {
                current_col = current_col + 1;
            }
            i = i + 1;
        }
        n
    }

    /// The display form `line+1:col+1`.
    pub fn display(&self) -> (s: String)
        requires
            self.line < usize::MAX,
            self.col < usize::MAX,
        ensures
            encode_utf8(s@) == position_text(*self),
    {
        let mut out: Vec<u8> = Vec::new();
        push_decimal(&mut out, self.line + 1);
        out.push(58u8);
        push_decimal(&mut out, self.col + 1);
        proof {
            lemma_decimal_ascii((self.line + 1) as nat);
            lemma_decimal_ascii((self.col + 1) as nat);
            assert(all_ascii(out@));
            lemma_ascii_valid(out@);
        }
        string_of_bytes(out)
    }
}

/// A selection between an anchor and a head.
#[derive(Debug, Clone, Copy, PartialEq, Eq, Structural)]
pub struct Selection {
    /// Where the selection started.
    pub anchor: Position,
    /// Where the cursor is.
    pub head: Position,
}

/// The byte offset `n` characters before offset `o` of `text`, stopping at
/// the start.
pub(crate) fn offset_chars_left(text: &str, o: usize, n: usize) -> (r: usize)
    requires
        o <= bytes_of(text).len(),
    ensures
        r as nat == chars_left(bytes_of(text), o as nat, n as nat),
{
    let b = text.as_bytes();
    let mut cur = o;
    let mut k: usize = 0;
    while k < n && cur > 0
        invariant
            b@ == bytes_of(text),
            cur <= b@.len(),
            k <= n,
            chars_left(b@, o as nat, n as nat) == chars_left(b@, cur as nat, (n - k) as nat),
        decreases n - k,
    {
        let mut j = cur - 1;
        while j > 0 && 0x80 <= b[j] && b[j] < 0xC0
            invariant
                b@ == bytes_of(text),
                0 <= j < cur <= b@.len(),
                prev_start(b@, cur - 1) == prev_start(b@, j as int),
            decreases j,
        {
            j = j - 1;
        }
        cur = j;
        k = k + 1;
    }
    cur
}

/// The byte offset `n` characters after offset `o` of `text`, stopping at
/// the end.
pub(crate) fn offset_chars_right(text: &str, o: usize, n: usize) -> (r: usize)
    requires
        o <= bytes_of(text).len(),
    ensures
        r as nat == chars_right(bytes_of(text), o as nat, n as nat),
{
    let b = text.as_bytes();
    let len = b.len();
    let mut cur = o;
    let mut k: usize = 0;
    while k < n && cur < len
        invariant
            b@ == bytes_of(text),
            len == b@.len(),
            cur <= len,
            k <= n,
            chars_right(b@, o as nat, n as nat) == chars_right(b@, cur as nat, (n - k) as nat),
        decreases n - k,
    {
        let mut j = cur + 1;
        while j < len && 0x80 <= b[j] && b[j] < 0xC0
            invariant
                b@ == bytes_of(text),
                len == b@.len(),
                cur < j <= len,
                next_start(b@, (cur + 1) as nat) == next_start(b@, j as nat),
            decreases len - j,
        {
            j = j + 1;
        }
        cur = j;
        k = k + 1;
    }
    cur
}

/// Stepping back to a character start stays at or before `j` and lands on
/// a character start.
proof fn lemma_prev_start(b: Seq<u8>, j: int)
    requires
        j < b.len(),
    ensures
        j >= 0 ==> prev_start(b, j) <= j,
        starts_char(b, prev_start(b, j)),
    decreases j,
{
    if j > 0 && is_continuation(b[j]) {
        lemma_prev_start(b, j - 1);
    }
}

/// Stepping forward to a character start stays between `j` and the end and
/// lands on a character start.
proof fn lemma_next_start(b: Seq<u8>, j: nat)
    requires
        j <= b.len(),
    ensures
        j <= next_start(b, j) <= b.len(),
        starts_char(b, next_start(b, j)),
    decreases b.len() - j,
{
    if j < b.len() && is_continuation(b[j as int]) {
        lemma_next_start(b, j + 1);
    }
}

/// Moving left by characters stays at or before `o` and, unless it stays
/// put, lands on a character start.
pub proof fn lemma_chars_left(b: Seq<u8>, o: nat, n: nat)
    requires
        o <= b.len(),
    ensures
        chars_left(b, o, n) <= o,
        chars_left(b, o, n) == o || starts_char(b, chars_left(b, o, n)),
    decreases n,
{
    if n > 0 && o > 0 {
        lemma_prev_start(b, o - 1);
        lemma_chars_left(b, prev_start(b, o - 1), (n - 1) as nat);
    }
}

/// Moving right by characters stays between `o` and the end and, unless it
/// stays put, lands on a character start.
pub proof fn lemma_chars_right(b: Seq<u8>, o: nat, n: nat)
    requires
        o <= b.len(),
    ensures
        o <= chars_right(b, o, n) <= b.len(),
        chars_right(b, o, n) == o || starts_char(b, chars_right(b, o, n)),
    decreases n,
{
    if n > 0 && o < b.len() {
        lemma_next_start(b, o + 1);
        lemma_chars_right(b, next_start(b, o + 1), (n - 1) as nat);
    }
}

/// In valid UTF-8, a character start is a character boundary.
pub proof fn lemma_starts_char_boundary(b: Seq<u8>, j: nat)
    requires
        valid_utf8(b),
        j <= b.len(),
        starts_char(b, j),
    ensures
        is_char_boundary(b, j as int),
{
    if j == 0 || j == b.len() {
        vstd::utf8::is_char_boundary_start_end_of_seq(b);
    } else {
        vstd::utf8::is_char_boundary_iff_not_is_continuation_byte(b, j as int);
    }
}

impl Selection {
    /// A zero-width selection at `p`.
    pub fn cursor(p: Position) -> (r: Selection)
        ensures
            r == (Selection { anchor: p, head: p }),
    {
        Selection { anchor: p, head: p }
    }

    /// Whether anchor and head coincide.
    pub fn is_cursor(&self) -> (r: bool)
        ensures
            r == (self.anchor == self.head),
    {
        self.anchor.line == self.head.line && self.anchor.col == self.head.col
    }

    /// The earlier of anchor and head.
    pub fn start(&self) -> (r: Position)
        ensures
            r == if pos_le(self.anchor, self.head) {
                self.anchor
            } else {
                self.head
            },
    {
        if self.anchor.line < self.head.line || (self.anchor.line == self.head.line
            && self.anchor.col <= self.head.col) {
            self.anchor
        } else {
            self.head
        }
    }

    /// The later of anchor and head.
    pub fn end(&self) -> (r: Position)
        ensures
            r == if pos_le(self.anchor, self.head) {
                self.head
            } else {
                self.anchor
            },
    {
        if self.anchor.line < self.head.line || (self.anchor.line == self.head.line
            && self.anchor.col <= self.head.col) {
            self.head
        } else {
            self.anchor
        }
    }
}

/// Number of lines of `b` (as `str::lines` counts them).
pub open spec fn line_total(b: Seq<u8>) -> nat {
    lines_of(b).len()
}

/// Number of characters of line `k` of `b`, or 0 beyond the last line.
pub open spec fn line_len(b: Seq<u8>, k: nat) -> nat {
    if k < lines_of(b).len() {
        char_starts(b.subrange(lines_of(b)[k as int].0 as int, lines_of(b)[k as int].1 as int))
    } else {
        0
    }
}

/// The character length of line `line_idx` of `text` (0 beyond the end).
pub fn line_length(text: &str, line_idx: usize) -> (r: usize)
    ensures
        r as nat == line_len(bytes_of(text), line_idx as nat),
{
    let b = text.as_bytes();
    let spans = line_spans(b);
    if line_idx < spans.len() {
        let (s, e) = spans[line_idx];
        count_char_starts(b, s, e)
    } else {
        0
    }
}

/// Number of lines of `text`.
pub fn line_count(text: &str) -> (r: usize)
    ensures
        r as nat == line_total(bytes_of(text)),
{
    let b = text.as_bytes();
    let spans = line_spans(b);
    spans.len()
}

/// The cursor state within a scroll.
#[derive(Debug, Clone)]
pub struct ScrollCursor {
    /// The primary selection; a plain cursor is a zero-width selection.
    pub selection: Selection,
    /// Further selections, for multi-cursor editing.
    pub extra_selections: Vec<Selection>,
    /// The column that vertical moves try to keep.
    pub sticky_col: Option<usize>,
}

/// The first byte from `i` on that is ASCII whitespace, or the length.
pub open spec fn skip_word(b: Seq<u8>, i: nat) -> nat
    decreases b.len() - i,
{
    if i >= b.len() || is_ascii_ws(b[i as int]) {
        if i >= b.len() { b.len() } else { i }
    } else {
        skip_word(b, i + 1)
    }
}

/// The first byte from `i` on that is not ASCII whitespace, or the length.
pub open spec fn skip_space(b: Seq<u8>, i: nat) -> nat
    decreases b.len() - i,
{
    if i >= b.len() || !is_ascii_ws(b[i as int]) {
        if i >= b.len() { b.len() } else { i }
    } else {
        skip_space(b, i + 1)
    }
}

/// Where a move to the next word lands, from byte offset `off`.
pub open spec fn word_forward_offset(b: Seq<u8>, off: nat) -> nat {
    skip_space(b, skip_word(b, off))
}

/// Whether byte `k` starts a word: it is not ASCII whitespace and the byte
/// before it is.
pub open spec fn word_starts_at(b: Seq<u8>, k: int) -> bool {
    !is_ascii_ws(b[k]) && is_ascii_ws(b[k - 1])
}

/// The last word start at or before byte `k`, or 0 when there is none.
pub open spec fn word_start_at_or_before(b: Seq<u8>, k: int) -> nat
    decreases k,
{
    if k <= 0 {
        0
    } else if word_starts_at(b, k) {
        k as nat
    } else {
        word_start_at_or_before(b, k - 1)
    }
}

/// Where a move to the previous word lands, from byte offset `off > 0`: the
/// last word start before `off`, or the start of the text.
pub open spec fn word_backward_offset(b: Seq<u8>, off: nat) -> nat {
    word_start_at_or_before(b, off - 1)
}

/// Whether byte offset `j` lies on a character start: the start or the end
/// of the text, or a byte that is not a continuation byte.
pub open spec fn starts_char(b: Seq<u8>, j: nat) -> bool {
    j == 0 || j >= b.len() || !is_continuation(b[j as int])
}

/// Moving backward from byte `j`, the first character start (or 0).
pub open spec fn prev_start(b: Seq<u8>, j: int) -> nat
    decreases j,
{
    if j <= 0 {
        0
    } else if !is_continuation(b[j]) {
        j as nat
    } else {
        prev_start(b, j - 1)
    }
}

/// Moving forward from byte `j`, the first character start, or the length.
pub open spec fn next_start(b: Seq<u8>, j: nat) -> nat
    decreases b.len() - j,
{
    if j >= b.len() {
        b.len()
    } else if !is_continuation(b[j as int]) {
        j
    } else {
        next_start(b, j + 1)
    }
}

/// The offset `n` characters before offset `o`, stopping at the start.
pub open spec fn chars_left(b: Seq<u8>, o: nat, n: nat) -> nat
    decreases n,
{
    if n == 0 || o == 0 {
        o
    } else {
        chars_left(b, prev_start(b, o - 1), (n - 1) as nat)
    }
}

/// The offset `n` characters after offset `o`, stopping at the end.
pub open spec fn chars_right(b: Seq<u8>, o: nat, n: nat) -> nat
    decreases n,
{
    if n == 0 || o >= b.len() {
        o
    } else {
        chars_right(b, next_start(b, o + 1), (n - 1) as nat)
    }
}

/// The part of a cursor that moves: the selection and the column that
/// vertical moves keep.
pub struct CursorState {
    pub selection: Selection,
    pub sticky_col: Option<usize>,
}

/// A collapsed cursor at `p` with no kept column.
pub open spec fn cs_at(p: Position) -> CursorState {
    CursorState { selection: Selection::cursor_spec(p), sticky_col: None }
}

/// The selection extended to `p`.
pub open spec fn cs_select_to(c: CursorState, p: Position) -> CursorState {
    CursorState { selection: Selection { head: p, ..c.selection }, sticky_col: None }
}

/// The cursor moved `n` characters left in `b`, stopping at the start.
pub open spec fn cs_left(c: CursorState, b: Seq<u8>, n: nat) -> CursorState {
    cs_at(position_of_offset(b, chars_left(b, offset_of(b, c.selection.head), n)))
}

/// The cursor moved `n` characters right in `b`, stopping at the end.
pub open spec fn cs_right(c: CursorState, b: Seq<u8>, n: nat) -> CursorState {
    cs_at(position_of_offset(b, chars_right(b, offset_of(b, c.selection.head), n)))
}

/// The column a vertical move aims for.
pub open spec fn target_col(c: CursorState) -> usize {
    match c.sticky_col {
        Some(k) => k,
        None => c.selection.head.col,
    }
}

/// The cursor on line `line`, at the aimed-for column or the line's end.
pub open spec fn cs_on_line(c: CursorState, b: Seq<u8>, line: nat) -> CursorState {
    let t = target_col(c);
    let len = line_len(b, line);
    CursorState {
        selection: Selection::cursor_spec(pos(line, if t <= len { t as nat } else { len })),
        sticky_col: Some(t),
    }
}

/// The cursor moved `n` lines up (nothing happens on the first line).
pub open spec fn cs_up(c: CursorState, b: Seq<u8>, n: nat) -> CursorState {
    let l = c.selection.head.line;
    if l == 0 {
        c
    } else {
        cs_on_line(c, b, if l >= n { (l - n) as nat } else { 0 })
    }
}

/// The number of lines a cursor can move over: at least one.
pub open spec fn line_span_total(b: Seq<u8>) -> nat {
    if line_total(b) > 1 { line_total(b) } else { 1 }
}

/// The cursor moved `n` lines down (nothing happens on the last line).
pub open spec fn cs_down(c: CursorState, b: Seq<u8>, n: nat) -> CursorState {
    let l = c.selection.head.line;
    let total = line_span_total(b);
    if l + 1 >= total {
        c
    } else {
        cs_on_line(c, b, if l + n <= total - 1 { (l + n) as nat } else { (total - 1) as nat })
    }
}

/// The cursor at the start of its line.
pub open spec fn cs_home(c: CursorState) -> CursorState {
    cs_at(Position { line: c.selection.head.line, col: 0 })
}

/// The cursor at the end of its line.
pub open spec fn cs_end(c: CursorState, b: Seq<u8>) -> CursorState {
    cs_at(pos(c.selection.head.line as nat, line_len(b, c.selection.head.line as nat)))
}

/// The cursor at the end of the text.
pub open spec fn cs_bottom(b: Seq<u8>) -> CursorState {
    cs_at(position_of_offset(b, b.len()))
}

/// The cursor moved to the start of the next word.
pub open spec fn cs_word_forward(c: CursorState, b: Seq<u8>) -> CursorState {
    cs_at(position_of_offset(b, word_forward_offset(b, offset_of(b, c.selection.head))))
}

/// The cursor moved to the start of the previous word (nothing happens at
/// the start of the text).
pub open spec fn cs_word_backward(c: CursorState, b: Seq<u8>) -> CursorState {
    let o = offset_of(b, c.selection.head);
    if o == 0 {
        c
    } else {
        cs_at(position_of_offset(b, word_backward_offset(b, o)))
    }
}


impl ScrollCursor {
    /// The selection and the kept column.
    pub open spec fn state(&self) -> CursorState {
        CursorState { selection: self.selection, sticky_col: self.sticky_col }
    }

    /// A cursor at the origin.
    pub fn new() -> (r: ScrollCursor)
        ensures
            r.selection == Selection::cursor_spec(Position { line: 0, col: 0 }),
            r.extra_selections@.len() == 0,
            r.sticky_col is None,
    {
        ScrollCursor {
            selection: Selection::cursor(Position::origin()),
            extra_selections: Vec::new(),
            sticky_col: None,
        }
    }

    /// A cursor at `p`.
    pub fn at(p: Position) -> (r: ScrollCursor)
        ensures
            r.selection == Selection::cursor_spec(p),
            r.extra_selections@.len() == 0,
            r.sticky_col is None,
    {
        ScrollCursor { selection: Selection::cursor(p), extra_selections: Vec::new(), sticky_col: None }
    }

    /// The cursor position (the selection head).
    pub fn position(&self) -> (r: Position)
        ensures
            r == self.selection.head,
    {
        self.selection.head
    }

    /// Moves to `p`, collapsing the selection.
    pub fn move_to(&mut self, p: Position)
        ensures
            final(self).state() == cs_at(p),
            final(self).extra_selections == old(self).extra_selections,
    {
        self.selection = Selection::cursor(p);
        self.sticky_col = None;
    }

    /// Extends the selection to `p`: the anchor stays, the head moves.
    pub fn select_to(&mut self, p: Position)
        ensures
            final(self).state() == cs_select_to(old(self).state(), p),
            final(self).extra_selections == old(self).extra_selections,
    {
        self.selection.head = p;
        self.sticky_col = None;
    }

    /// Moves `n` characters left (stopping at the start) and collapses the
    /// selection.
    pub fn move_left(&mut self, text: &str, n: usize)
        ensures
            final(self).state() == cs_left(old(self).state(), bytes_of(text), n as nat),
            final(self).extra_selections == old(self).extra_selections,
    {
        let offset = self.selection.head.to_offset(text);
        proof {
            lemma_offset_search_le(bytes_of(text), self.selection.head.line as nat, self.selection.head.col as nat, 0);
        }
        let new_offset = offset_chars_left(text, offset, n);
        self.move_to(Position::from_offset(text, new_offset));
    }

    /// Moves `n` characters right (stopping at the end) and collapses the
    /// selection.
    pub fn move_right(&mut self, text: &str, n: usize)
        ensures
            final(self).state() == cs_right(old(self).state(), bytes_of(text), n as nat),
            final(self).extra_selections == old(self).extra_selections,
    {
        let offset = self.selection.head.to_offset(text);
        proof {
            lemma_offset_search_le(bytes_of(text), self.selection.head.line as nat, self.selection.head.col as nat, 0);
        }
        let new_offset = offset_chars_right(text, offset, n);
        self.move_to(Position::from_offset(text, new_offset));
    }

    /// Moves up `n` lines, keeping the remembered column where the line is
    /// long enough; nothing happens on the first line.
    pub fn move_up(&mut self, text: &str, n: usize)
        ensures
            final(self).state() == cs_up(old(self).state(), bytes_of(text), n as nat),
            final(self).extra_selections == old(self).extra_selections,
    {
        let p = self.selection.head;
        if p.line == 0 {
            return;
        }
        let target_col = match self.sticky_col {
            Some(c) => c,
            None => p.col,
        };
        let new_line = if p.line >= n {
            p.line - n
        } else {
            0
        };
        let len = line_length(text, new_line);
        let new_col = if target_col <= len {
            target_col
        } else {
            len
        };
        self.selection = Selection::cursor(Position::new(new_line, new_col));
        self.sticky_col = Some(target_col);
    }

    /// Moves down `n` lines (at most to the last line), keeping the
    /// remembered column where the line is long enough; nothing happens on
    /// the last line.
    pub fn move_down(&mut self, text: &str, n: usize)
        requires
            old(self).selection.head.line < usize::MAX,
            old(self).selection.head.line + 1 < line_span_total(bytes_of(text))
                ==> old(self).selection.head.line + n <= usize::MAX,
        ensures
            final(self).state() == cs_down(old(self).state(), bytes_of(text), n as nat),
            final(self).extra_selections == old(self).extra_selections,
    {
        let p = self.selection.head;
        let count = line_count(text);
        let total_lines = if count > 1 {
            count
        } else {
            1
        };
        if p.line + 1 >= total_lines {
            return;
        }
        let target_col = match self.sticky_col {
            Some(c) => c,
            None => p.col,
        };
        let new_line = if p.line + n <= total_lines - 1 {
            p.line + n
        } else {
            total_lines - 1
        };
        let len = line_length(text, new_line);
        let new_col = if target_col <= len {
            target_col
        } else {
            len
        };
        self.selection = Selection::cursor(Position::new(new_line, new_col));
        self.sticky_col = Some(target_col);
    }

    /// Moves to the start of the current line.
    pub fn move_home(&mut self)
        ensures
            final(self).state() == cs_home(old(self).state()),
            final(self).extra_selections == old(self).extra_selections,
    {
        let line = self.selection.head.line;
        self.move_to(Position::new(line, 0));
    }

    /// Moves to the end of the current line.
    pub fn move_end(&mut self, text: &str)
        ensures
            final(self).state() == cs_end(old(self).state(), bytes_of(text)),
            final(self).extra_selections == old(self).extra_selections,
    {
        let line = self.selection.head.line;
        let len = line_length(text, line);
        self.move_to(Position::new(line, len));
    }

    /// Moves to the start of the text.
    pub fn move_top(&mut self)
        ensures
            final(self).state() == cs_at(Position { line: 0, col: 0 }),
            final(self).extra_selections == old(self).extra_selections,
    {
        self.move_to(Position::origin());
    }

    /// Moves to the end of the text.
    pub fn move_bottom(&mut self, text: &str)
        ensures
            final(self).state() == cs_bottom(bytes_of(text)),
            final(self).extra_selections == old(self).extra_selections,
    {
        let len = text.as_bytes().len();
        self.move_to(Position::from_offset(text, len));
    }

    /// Moves past the rest of the current word and the whitespace after it.
    pub fn move_word_forward(&mut self, text: &str)
        ensures
            final(self).state() == cs_word_forward(old(self).state(), bytes_of(text)),
            final(self).extra_selections == old(self).extra_selections,
    {
        let offset = self.selection.head.to_offset(text);
        let bytes = text.as_bytes();
        let len = bytes.len();
        let mut i = offset;
        proof {
            assert(offset_search(bytes@, self.selection.head.line as nat, self.selection.head.col as nat, 0) <= len) by {
                lemma_offset_search_le(bytes@, self.selection.head.line as nat, self.selection.head.col as nat, 0);
            }
        }
        while i < len && !ascii_whitespace(bytes[i])
            invariant
                offset <= i <= len == bytes@.len(),
                skip_word(bytes@, offset as nat) == skip_word(bytes@, i as nat),
            decreases len - i,
        {
            i = i + 1;
        }
        let ghost mid = i;
        while i < len && ascii_whitespace(bytes[i])
            invariant
                mid <= i <= len == bytes@.len(),
                skip_word(bytes@, offset as nat) == mid,
                skip_space(bytes@, mid as nat) == skip_space(bytes@, i as nat),
            decreases len - i,
        {
            i = i + 1;
        }
        self.move_to(Position::from_offset(text, i));
    }

    /// Moves to the start of the word before the cursor (the start of the
    /// text when no word starts before it); nothing happens at the start of
    /// the text.
    pub fn move_word_backward(&mut self, text: &str)
        ensures
            final(self).state() == cs_word_backward(old(self).state(), bytes_of(text)),
            final(self).extra_selections == old(self).extra_selections,
    {
        let offset = self.selection.head.to_offset(text);
        let bytes = text.as_bytes();
        if offset == 0 {
            return;
        }
        proof {
            lemma_offset_search_le(bytes@, self.selection.head.line as nat, self.selection.head.col as nat, 0);
        }
        let mut i = offset - 1;
        while i > 0 && !(!ascii_whitespace(bytes[i]) && ascii_whitespace(bytes[i - 1]))
            invariant
                0 <= i < bytes@.len(),
                i <= offset - 1,
                word_start_at_or_before(bytes@, offset - 1) == word_start_at_or_before(bytes@, i as int),
            decreases i,
        {
            i = i - 1;
        }
        self.move_to(Position::from_offset(text, i));
    }
}

impl Selection {
    /// A zero-width selection at `p`, in specifications.
    pub open spec fn cursor_spec(p: Position) -> Selection {
        Selection { anchor: p, head: p }
    }
}

/// The offset search lands on a character boundary.
pub proof fn lemma_offset_boundary(b: Seq<u8>, line: nat, col: nat, i: nat)
    requires
        valid_utf8(b),
    ensures
        is_char_boundary(b, offset_search(b, line, col, i) as int),
    decreases b.len() - i,
{
    if i >= b.len() {
        vstd::utf8::is_char_boundary_start_end_of_seq(b);
    } else if offset_matches(b, line, col, i as int) {
        vstd::utf8::is_char_boundary_iff_not_is_continuation_byte(b, i as int);
    } else {
        lemma_offset_boundary(b, line, col, i + 1);
    }
}

/// The offset search never passes the end of the text.
pub proof fn lemma_offset_search_le(b: Seq<u8>, line: nat, col: nat, i: nat)
    ensures
        offset_search(b, line, col, i) <= b.len(),
    decreases b.len() - i,
{
    if i < b.len() {
        lemma_offset_search_le(b, line, col, i + 1);
    }
}

/// Text order on (line, column) pairs, reflexive.
pub open spec fn at_or_before(a: (nat, nat), b: (nat, nat)) -> bool {
    a.0 < b.0 || (a.0 == b.0 && a.1 <= b.1)
}

/// Reading further never moves the position back.
proof fn lemma_position_monotone(b: Seq<u8>, j: nat, i: nat)
    requires
        j <= i <= b.len(),
    ensures
        at_or_before(position_at(b, j), position_at(b, i)),
    decreases i - j,
{
    if j < i {
        lemma_position_monotone(b, j, (i - 1) as nat);
    }
}

/// No byte before offset `o` is where the cursor lands for the position
/// of `o`.
proof fn lemma_no_earlier_match(b: Seq<u8>, o: nat, j: nat)
    requires
        o <= b.len(),
        j < o,
    ensures
        !offset_matches(b, position_at(b, o).0, position_at(b, o).1, j as int),
{
    if !is_continuation(b[j as int]) {
        lemma_position_monotone(b, j + 1, o);
    }
}

/// Where the search from `i` lands when nothing matches before `o` and
/// `o` matches (or is the end).
proof fn lemma_search_reaches(b: Seq<u8>, line: nat, col: nat, i: nat, o: nat)
    requires
        i <= o <= b.len(),
        forall|j: int| i <= j < o ==> !offset_matches(b, line, col, j),
        o < b.len() ==> offset_matches(b, line, col, o as int),
    ensures
        offset_search(b, line, col, i) == o,
    decreases o - i,
{
    if i < o {
        lemma_search_reaches(b, line, col, i + 1, o);
    }
}

/// Going from a byte offset to a position and back gives the offset again,
/// for every offset within the text that starts a character (or is its
/// end).
pub proof fn lemma_offset_roundtrip(b: Seq<u8>, o: nat)
    requires
        b.len() <= usize::MAX,
        o <= b.len(),
        o < b.len() ==> !is_continuation(b[o as int]),
    ensures
        offset_of(b, position_of_offset(b, o)) == o,
{
    let p = position_at(b, o);
    lemma_position_bounded(b, o);
    assert(position_of_offset(b, o) == pos(p.0, p.1));
    assert forall|j: int| 0 <= j < o implies !offset_matches(b, p.0, p.1, j) by {
        lemma_no_earlier_match(b, o, j as nat);
    }
    lemma_search_reaches(b, p.0, p.1, 0, o);
}

} // verus!
