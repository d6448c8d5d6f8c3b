//! A vim-style mode with normal, insert, visual and command sub-modes.
//! Normal mode reads `[count] command`: a count typed before a motion or
//! operator repeats it.
use vstd::prelude::*;
use vstd::utf8::encode_utf8;

use crate::coordinate::Coordinate;
use crate::undo::engine_wf;
use crate::cursor::{
    cs_at, cs_bottom, cs_down, cs_end, cs_home, cs_left, cs_right, cs_select_to, cs_up,
    chars_left, chars_right, cs_word_backward, cs_word_forward, line_span_total, offset_chars_left,
    offset_chars_right, offset_of, position_of_offset, CursorState,
    Position, ScrollCursor, Selection,
};
use crate::editor::{
    cv_delete_backward, cv_delete_forward, cv_delete_line, cv_delete_to, cv_insert, cv_redo, cv_replace_selection,
    cv_undo, delete_backward_ok, delete_forward_ok, delete_line_ok, insert_ok, newline, redo_ok,
    replace_selection_ok, undo_ok, ContextView, CursorStyle, EditContext, EditKey, EditKeyCode,
    EditResult, EditorMode, ResultView,
};
use crate::text::{
    chars_eq, concat_str, string_from_char, string_from_chars, trim_end, trim_start, trimmed_range,
};

verus! {

/// The sub-modes of the vim mode.
#[derive(Debug, Clone, Copy, PartialEq, Eq, Structural)]
pub enum VimSubMode {
    Normal,
    Insert,
    Visual,
    Command,
}

/// The state of the vim mode.
pub struct VimView {
    pub sub_mode: VimSubMode,
    /// The first key of a two-key command (`g` or `d`), if one is pending.
    pub pending: Seq<char>,
    /// The count typed so far.
    pub count: Option<usize>,
    /// The command line after `:`.
    pub command_buf: Seq<char>,
}

/// The vim mode.
#[derive(Debug)]
pub struct VimMode {
    sub_mode: VimSubMode,
    pending: Vec<char>,
    count: Option<usize>,
    command_buf: Vec<char>,
}

impl View for VimMode {
    type V = VimView;

    closed spec fn view(&self) -> VimView {
        VimView {
            sub_mode: self.sub_mode,
            pending: self.pending@,
            count: self.count,
            command_buf: self.command_buf@,
        }
    }
}

/// The count a command repeats by: the typed count, or 1.
pub open spec fn effective_count(v: VimView) -> nat {
    match v.count {
        Some(n) => n as nat,
        None => 1,
    }
}

/// The state with no pending key and no count.
pub open spec fn cleared(v: VimView) -> VimView {
    VimView { pending: seq![], count: None, ..v }
}

/// `v` in sub-mode `m`.
pub open spec fn in_mode(v: VimView, m: VimSubMode) -> VimView {
    VimView { sub_mode: m, ..v }
}

/// The context with its cursor replaced.
pub open spec fn with_cursor(cv: ContextView, c: CursorState) -> ContextView {
    ContextView { cursor: c, ..cv }
}

/// Whether the key is the plain character `c` (modifiers aside).
pub open spec fn is_char(k: EditKey, c: char) -> bool {
    k.code == EditKeyCode::Char(c)
}

/// An ASCII digit.
pub open spec fn is_digit(c: char) -> bool {
    '0' <= c <= '9'
}

/// The count after typing digit `c`.
pub open spec fn count_after(v: VimView, c: char) -> nat {
    let so_far: nat = match v.count {
        Some(n) => n as nat,
        None => 0,
    };
    (so_far * 10 + (c as nat - 48)) as nat
}

/// Whether the key adds a digit to the count: any digit but a leading
/// zero.
pub open spec fn is_count_key(v: VimView, k: EditKey) -> bool {
    k.code matches EditKeyCode::Char(c) && is_digit(c) && (c != '0' || v.count is Some)
}

/// The digit a count key types.
pub open spec fn key_char(k: EditKey) -> char {
    match k.code {
        EditKeyCode::Char(c) => c,
        _ => ' ',
    }
}

/// `n` moves to the next word.
pub open spec fn words_forward(c: CursorState, b: Seq<u8>, n: nat) -> CursorState
    decreases n,
{
    if n == 0 {
        c
    } else {
        words_forward(cs_word_forward(c, b), b, (n - 1) as nat)
    }
}

/// `n` moves to the previous word.
pub open spec fn words_backward(c: CursorState, b: Seq<u8>, n: nat) -> CursorState
    decreases n,
{
    if n == 0 {
        c
    } else {
        words_backward(cs_word_backward(c, b), b, (n - 1) as nat)
    }
}

/// Where the next word starts, as a byte offset of `cv`'s text.
pub open spec fn word_end_offset(cv: ContextView) -> nat {
    offset_of(cv.text, cs_word_forward(cv.cursor, cv.text).selection.head)
}

/// `n` deletions from the cursor to the start of the next word.
pub open spec fn words_deleted(cv: ContextView, coord: Coordinate, n: nat) -> ContextView
    decreases n,
{
    if n == 0 {
        cv
    } else {
        words_deleted(cv_delete_to(cv, coord, word_end_offset(cv)), coord, (n - 1) as nat)
    }
}

/// Whether `n` word deletions can be recorded one after the other.
pub open spec fn words_deleted_ok(cv: ContextView, coord: Coordinate, n: nat) -> bool
    decreases n,
{
    n == 0 || (engine_wf(cv.undo) && cv.undo.global < usize::MAX && words_deleted_ok(
        cv_delete_to(cv, coord, word_end_offset(cv)),
        coord,
        (n - 1) as nat,
    ))
}

/// Where the cursor's line ends, as a byte offset of `cv`'s text.
pub open spec fn line_end_offset(cv: ContextView) -> nat {
    offset_of(cv.text, cs_end(cv.cursor, cv.text).selection.head)
}

/// `n` deletions of the cursor's line.
pub open spec fn lines_deleted(cv: ContextView, coord: Coordinate, n: nat) -> ContextView
    decreases n,
{
    if n == 0 {
        cv
    } else {
        lines_deleted(cv_delete_line(cv, coord), coord, (n - 1) as nat)
    }
}

/// Whether `n` deletions of the cursor's line can be made one after the
/// other.
pub open spec fn lines_deleted_ok(cv: ContextView, coord: Coordinate, n: nat) -> bool
    decreases n,
{
    n == 0 || (delete_line_ok(cv) && lines_deleted_ok(cv_delete_line(cv, coord), coord, (n - 1) as nat))
}

/// The position a count `n` names as a line (counted from 1), column 0.
pub open spec fn line_start_of_count(n: usize) -> Position {
    Position { line: if n > 0 { (n - 1) as usize } else { 0 }, col: 0 }
}

/// What a key does in normal mode: the new state, the context after the
/// edit or move, and the result.
pub open spec fn normal_step(v: VimView, k: EditKey, cv: ContextView, coord: Coordinate) -> (
    VimView,
    ContextView,
    ResultView,
) {
    let n = effective_count(v);
    let c = cv.cursor;
    let t = cv.text;
    let cl = cleared(v);
    if is_count_key(v, k) {
        (VimView { count: Some(count_after(v, key_char(k)) as usize), ..v }, cv, ResultView::Nothing)
    } else if v.pending == seq!['d'] && is_char(k, 'w') {
        (cl, words_deleted(cv, coord, n), ResultView::TextChanged)
    } else if v.pending == seq!['d'] && is_char(k, '$') {
        (cl, cv_delete_to(cv, coord, line_end_offset(cv)), ResultView::TextChanged)
    } else if is_char(k, 'i') {
        (in_mode(cl, VimSubMode::Insert), cv, ResultView::Status("-- INSERT --"@))
    } else if is_char(k, 'a') {
        (in_mode(cl, VimSubMode::Insert), with_cursor(cv, cs_right(c, t, 1)), ResultView::CursorMoved)
    } else if is_char(k, 'A') {
        (in_mode(cl, VimSubMode::Insert), with_cursor(cv, cs_end(c, t)), ResultView::CursorMoved)
    } else if is_char(k, 'I') {
        (in_mode(cl, VimSubMode::Insert), with_cursor(cv, cs_home(c)), ResultView::CursorMoved)
    } else if is_char(k, 'o') {
        (
            in_mode(cl, VimSubMode::Insert),
            cv_insert(with_cursor(cv, cs_end(c, t)), coord, seq![10u8]),
            ResultView::TextChanged,
        )
    } else if is_char(k, 'O') {
        let ins = cv_insert(with_cursor(cv, cs_home(c)), coord, seq![10u8]);
        (
            in_mode(cl, VimSubMode::Insert),
            with_cursor(ins, cs_up(ins.cursor, ins.text, 1)),
            ResultView::TextChanged,
        )
    } else if is_char(k, 'v') {
        (
            in_mode(cl, VimSubMode::Visual),
            with_cursor(
                cv,
                CursorState {
                    selection: Selection { anchor: c.selection.head, head: c.selection.head },
                    sticky_col: c.sticky_col,
                },
            ),
            ResultView::Status("-- VISUAL --"@),
        )
    } else if is_char(k, ':') {
        (
            VimView { command_buf: seq![], ..in_mode(cl, VimSubMode::Command) },
            cv,
            ResultView::Status(":"@),
        )
    } else if k.code == EditKeyCode::Escape {
        (cl, cv, ResultView::ExitEdit)
    } else if is_char(k, 'h') || k.code == EditKeyCode::Left {
        (cl, with_cursor(cv, cs_left(c, t, n)), ResultView::CursorMoved)
    } else if is_char(k, 'l') || k.code == EditKeyCode::Right {
        (cl, with_cursor(cv, cs_right(c, t, n)), ResultView::CursorMoved)
    } else if is_char(k, 'j') || k.code == EditKeyCode::Down {
        (cl, with_cursor(cv, cs_down(c, t, n)), ResultView::CursorMoved)
    } else if is_char(k, 'k') || k.code == EditKeyCode::Up {
        (cl, with_cursor(cv, cs_up(c, t, n)), ResultView::CursorMoved)
    } else if is_char(k, '0') {
        (cl, with_cursor(cv, cs_home(c)), ResultView::CursorMoved)
    } else if is_char(k, '$') {
        (cl, with_cursor(cv, cs_end(c, t)), ResultView::CursorMoved)
    } else if is_char(k, 'w') {
        (cl, with_cursor(cv, words_forward(c, t, n)), ResultView::CursorMoved)
    } else if is_char(k, 'b') {
        (cl, with_cursor(cv, words_backward(c, t, n)), ResultView::CursorMoved)
    } else if is_char(k, 'g') && v.pending.len() == 0 {
        (VimView { pending: seq!['g'], ..v }, cv, ResultView::Nothing)
    } else if is_char(k, 'G') {
        let dest = match v.count {
            Some(m) => cs_at(line_start_of_count(m)),
            None => cs_bottom(t),
        };
        (cl, with_cursor(cv, dest), ResultView::CursorMoved)
    } else if is_char(k, 'x') {
        (cl, cv_delete_forward(cv, coord, n), ResultView::TextChanged)
    } else if is_char(k, 'X') {
        (cl, cv_delete_backward(cv, coord, n), ResultView::TextChanged)
    } else if is_char(k, 'd') && v.pending.len() == 0 {
        (VimView { pending: seq!['d'], ..v }, cv, ResultView::Nothing)
    } else if is_char(k, 'd') && v.pending == seq!['d'] {
        (cl, lines_deleted(cv, coord, n), ResultView::TextChanged)
    } else if is_char(k, 'u') {
        let (u, done) = cv_undo(cv, coord);
        (cl, u, if done { ResultView::TextChanged } else { ResultView::Status("Already at oldest change"@) })
    } else if is_char(k, 'r') && k.ctrl {
        let (u, done) = cv_redo(cv, coord);
        (cl, u, if done { ResultView::TextChanged } else { ResultView::Status("Already at newest change"@) })
    } else if v.pending == seq!['g'] && is_char(k, 'g') {
        let dest = match v.count {
            Some(m) => cs_at(line_start_of_count(m)),
            None => cs_at(Position { line: 0, col: 0 }),
        };
        (cl, with_cursor(cv, dest), ResultView::CursorMoved)
    } else {
        (cl, cv, ResultView::Nothing)
    }
}

/// Whether normal mode can handle the key: the edits and moves it makes
/// stay within the machine's limits.
pub open spec fn normal_ok(v: VimView, k: EditKey, cv: ContextView, coord: Coordinate) -> bool {
    let n = effective_count(v);
    let c = cv.cursor;
    let t = cv.text;
    if is_count_key(v, k) {
        count_after(v, key_char(k)) <= usize::MAX
    } else if v.pending == seq!['d'] && is_char(k, 'w') {
        words_deleted_ok(cv, coord, n)
    } else if v.pending == seq!['d'] && is_char(k, '$') {
        engine_wf(cv.undo) && cv.undo.global < usize::MAX
    } else if is_char(k, 'o') {
        insert_ok(with_cursor(cv, cs_end(c, t)), seq![10u8])
    } else if is_char(k, 'O') {
        insert_ok(with_cursor(cv, cs_home(c)), seq![10u8])
    } else if is_char(k, 'i') || is_char(k, 'a') || is_char(k, 'A') || is_char(k, 'I') || is_char(k, 'v')
        || is_char(k, ':') || k.code == EditKeyCode::Escape || is_char(k, 'h') || k.code == EditKeyCode::Left
        || is_char(k, 'l') || k.code == EditKeyCode::Right {
        true
    } else if is_char(k, 'j') || k.code == EditKeyCode::Down {
        c.selection.head.line < usize::MAX && (c.selection.head.line + 1 < line_span_total(t)
            ==> c.selection.head.line + n <= usize::MAX)
    } else if is_char(k, 'k') || k.code == EditKeyCode::Up || is_char(k, '0') || is_char(k, '$')
        || is_char(k, 'w') || is_char(k, 'b') || (is_char(k, 'g') && v.pending.len() == 0) || is_char(
        k,
        'G',
    ) {
        true
    } else if is_char(k, 'x') {
        delete_forward_ok(cv, n)
    } else if is_char(k, 'X') {
        delete_backward_ok(cv, n)
    } else if is_char(k, 'd') && v.pending.len() == 0 {
        true
    } else if is_char(k, 'd') && v.pending == seq!['d'] {
        lines_deleted_ok(cv, coord, n)
    } else if is_char(k, 'u') {
        undo_ok(cv, coord)
    } else if is_char(k, 'r') && k.ctrl {
        redo_ok(cv, coord)
    } else {
        true
    }
}

/// What a key does in insert mode.
pub open spec fn insert_step(v: VimView, k: EditKey, cv: ContextView, coord: Coordinate) -> (
    VimView,
    ContextView,
    ResultView,
) {
    let c = cv.cursor;
    let t = cv.text;
    match k.code {
        EditKeyCode::Escape => (
            in_mode(v, VimSubMode::Normal),
            with_cursor(cv, cs_left(c, t, 1)),
            ResultView::Status(""@),
        ),
        EditKeyCode::Char(ch) => (v, cv_insert(cv, coord, encode_utf8(seq![ch])), ResultView::TextChanged),
        EditKeyCode::Enter => (v, cv_insert(cv, coord, seq![10u8]), ResultView::TextChanged),
        EditKeyCode::Backspace => (v, cv_delete_backward(cv, coord, 1), ResultView::TextChanged),
        EditKeyCode::Delete => (v, cv_delete_forward(cv, coord, 1), ResultView::TextChanged),
        EditKeyCode::Left => (v, with_cursor(cv, cs_left(c, t, 1)), ResultView::CursorMoved),
        EditKeyCode::Right => (v, with_cursor(cv, cs_right(c, t, 1)), ResultView::CursorMoved),
        EditKeyCode::Up => (v, with_cursor(cv, cs_up(c, t, 1)), ResultView::CursorMoved),
        EditKeyCode::Down => (v, with_cursor(cv, cs_down(c, t, 1)), ResultView::CursorMoved),
        EditKeyCode::Home => (v, with_cursor(cv, cs_home(c)), ResultView::CursorMoved),
        EditKeyCode::End => (v, with_cursor(cv, cs_end(c, t)), ResultView::CursorMoved),
        EditKeyCode::Tab => (v, cv_insert(cv, coord, seq![32u8, 32, 32, 32]), ResultView::TextChanged),
        _ => (v, cv, ResultView::Nothing),
    }
}

/// Whether insert mode can handle the key.
pub open spec fn insert_mode_ok(k: EditKey, cv: ContextView) -> bool {
    let c = cv.cursor;
    let o = offset_of(cv.text, c.selection.head);
    match k.code {
        EditKeyCode::Char(ch) => insert_ok(cv, encode_utf8(seq![ch])),
        EditKeyCode::Enter => insert_ok(cv, seq![10u8]),
        EditKeyCode::Backspace => delete_backward_ok(cv, 1),
        EditKeyCode::Delete => delete_forward_ok(cv, 1),
        EditKeyCode::Right => o + 1 <= usize::MAX,
        EditKeyCode::Down => c.selection.head.line < usize::MAX,
        EditKeyCode::Tab => insert_ok(cv, seq![32u8, 32, 32, 32]),
        _ => true,
    }
}

/// What a key does in visual mode.
pub open spec fn visual_step(v: VimView, k: EditKey, cv: ContextView, coord: Coordinate) -> (
    VimView,
    ContextView,
    ResultView,
) {
    let c = cv.cursor;
    let t = cv.text;
    let o = offset_of(t, c.selection.head);
    if k.code == EditKeyCode::Escape {
        (
            cleared(in_mode(v, VimSubMode::Normal)),
            with_cursor(
                cv,
                CursorState {
                    selection: Selection { anchor: c.selection.head, head: c.selection.head },
                    sticky_col: c.sticky_col,
                },
            ),
            ResultView::Status(""@),
        )
    } else if is_char(k, 'h') || k.code == EditKeyCode::Left {
        (v, with_cursor(cv, cs_select_to(c, position_of_offset(t, chars_left(t, o, 1)))), ResultView::CursorMoved)
    } else if is_char(k, 'l') || k.code == EditKeyCode::Right {
        (v, with_cursor(cv, cs_select_to(c, position_of_offset(t, chars_right(t, o, 1)))), ResultView::CursorMoved)
    } else if is_char(k, 'j') || k.code == EditKeyCode::Down {
        (v, with_cursor(cv, cs_down(c, t, 1)), ResultView::CursorMoved)
    } else if is_char(k, 'k') || k.code == EditKeyCode::Up {
        (v, with_cursor(cv, cs_up(c, t, 1)), ResultView::CursorMoved)
    } else if is_char(k, 'd') || is_char(k, 'x') {
        (cleared(in_mode(v, VimSubMode::Normal)), cv_replace_selection(cv, coord, seq![]), ResultView::TextChanged)
    } else if is_char(k, 'c') {
        (cleared(in_mode(v, VimSubMode::Insert)), cv_replace_selection(cv, coord, seq![]), ResultView::TextChanged)
    } else {
        (v, cv, ResultView::Nothing)
    }
}

/// Whether visual mode can handle the key.
pub open spec fn visual_ok(k: EditKey, cv: ContextView) -> bool {
    let c = cv.cursor;
    let o = offset_of(cv.text, c.selection.head);
    if is_char(k, 'l') || k.code == EditKeyCode::Right {
        o + 1 <= usize::MAX
    } else if is_char(k, 'j') || k.code == EditKeyCode::Down {
        c.selection.head.line < usize::MAX
    } else if is_char(k, 'd') || is_char(k, 'x') || is_char(k, 'c') {
        replace_selection_ok(cv, seq![])
    } else {
        true
    }
}

/// What a command line does: `q`, `q!` and `wq` leave editing, `w` reports
/// that saving is the lattice's job, anything else is unknown (white space
/// around the command is ignored).
pub open spec fn command_result(cmd: Seq<char>) -> ResultView {
    let c = trim_end(trim_start(cmd));
    if c == "q"@ || c == "q!"@ || c == "wq"@ {
        ResultView::ExitEdit
    } else if c == "w"@ {
        ResultView::Status("Written (save via lattice)"@)
    } else {
        ResultView::Status("Unknown command: "@ + cmd)
    }
}

/// What a key does in command mode.
pub open spec fn command_step(v: VimView, k: EditKey) -> (VimView, ResultView) {
    match k.code {
        EditKeyCode::Escape => (
            VimView { command_buf: seq![], ..in_mode(v, VimSubMode::Normal) },
            ResultView::Status(""@),
        ),
        EditKeyCode::Enter => (
            VimView { command_buf: seq![], ..in_mode(v, VimSubMode::Normal) },
            command_result(v.command_buf),
        ),
        EditKeyCode::Backspace => {
            let b = if v.command_buf.len() > 0 {
                v.command_buf.drop_last()
            } else {
                v.command_buf
            };
            if b.len() == 0 {
                (VimView { command_buf: b, ..in_mode(v, VimSubMode::Normal) }, ResultView::Status(""@))
            } else {
                (VimView { command_buf: b, ..v }, ResultView::Status(":"@ + b))
            }
        },
        EditKeyCode::Char(ch) => {
            let b = v.command_buf.push(ch);
            (VimView { command_buf: b, ..v }, ResultView::Status(":"@ + b))
        },
        _ => (v, ResultView::Nothing),
    }
}

/// What a key does in the current sub-mode.
pub open spec fn vim_step(v: VimView, k: EditKey, cv: ContextView, coord: Coordinate) -> (
    VimView,
    ContextView,
    ResultView,
) {
    match v.sub_mode {
        VimSubMode::Normal => normal_step(v, k, cv, coord),
        VimSubMode::Insert => insert_step(v, k, cv, coord),
        VimSubMode::Visual => visual_step(v, k, cv, coord),
        VimSubMode::Command => {
            let (nv, r) = command_step(v, k);
            (nv, cv, r)
        },
    }
}

/// Whether the current sub-mode can handle the key.
pub open spec fn vim_ok(v: VimView, k: EditKey, cv: ContextView, coord: Coordinate) -> bool {
    match v.sub_mode {
        VimSubMode::Normal => normal_ok(v, k, cv, coord),
        VimSubMode::Insert => insert_mode_ok(k, cv),
        VimSubMode::Visual => visual_ok(k, cv),
        VimSubMode::Command => true,
    }
}

} // verus!

verus! {

/// A status result that shows `s`.
fn status(s: &str) -> (r: EditResult)
    ensures
        r@ == ResultView::Status(s@),
{
    EditResult::Status(s.to_owned())
}

/// Four spaces: what a tab inserts.
fn soft_tab() -> (r: String)
    ensures
        encode_utf8(r@) == seq![32u8, 32, 32, 32],
{
    let v: Vec<u8> = vec![32u8, 32, 32, 32];
    proof {
        assert(crate::text::all_ascii(v@));
        crate::text::lemma_ascii_valid(v@);
    }
    crate::text::string_of_bytes(v)
}


impl VimMode {
    /// A vim mode in normal mode with nothing pending.
    pub fn new() -> (r: VimMode)
        ensures
            r@ == (VimView { sub_mode: VimSubMode::Normal, pending: seq![], count: None, command_buf: seq![] }),
    {
        let r = VimMode { sub_mode: VimSubMode::Normal, pending: Vec::new(), count: None, command_buf: Vec::new() };
        assert(r@.pending =~= Seq::<char>::empty());
        assert(r@.command_buf =~= Seq::<char>::empty());
        r
    }

    /// The count a command repeats by.
    fn effective_count(&self) -> (r: usize)
        ensures
            r == effective_count(self@),
    {
        match self.count {
            Some(n) => n,
            None => 1,
        }
    }

    /// Forgets the pending key and the count.
    fn clear_pending(&mut self)
        ensures
            final(self)@ == cleared(old(self)@),
    {
        self.pending.clear();
        self.count = None;
        assert(self@.pending =~= Seq::<char>::empty());
    }

    /// Whether nothing is pending.
    fn pending_empty(&self) -> (r: bool)
        ensures
            r == (self@.pending.len() == 0),
    {
        self.pending.len() == 0
    }

    /// Whether the pending key is `c`.
    fn pending_is(&self, c: char) -> (r: bool)
        ensures
            r == (self@.pending == seq![c]),
    {
        let r = self.pending.len() == 1 && self.pending[0] == c;
        proof {
            if r {
                assert(self@.pending =~= seq![c]);
            }
        }
        r
    }

    /// Moves the cursor `n` words forward.
    fn words_forward(ctx: &mut EditContext, n: usize)
        ensures
            final(ctx).cv() == with_cursor(old(ctx).cv(), words_forward(old(ctx).cv().cursor, old(ctx).cv().text, n as nat)),
            final(ctx).coordinate == old(ctx).coordinate,
            final(ctx).cursor.extra_selections == old(ctx).cursor.extra_selections,
    {
        let ghost cv0 = ctx.cv();
        let mut i: usize = 0;
        while i < n
            invariant
                0 <= i <= n,
                ctx.cv() == with_cursor(cv0, ctx.cv().cursor),
                words_forward(ctx.cv().cursor, cv0.text, (n - i) as nat) == words_forward(cv0.cursor, cv0.text, n as nat),
                ctx.coordinate == old(ctx).coordinate,
                ctx.cursor.extra_selections == old(ctx).cursor.extra_selections,
                cv0 == old(ctx).cv(),
            decreases n - i,
        {
            ctx.cursor.move_word_forward(ctx.text);
            i = i + 1;
        }
    }

    /// Moves the cursor `n` words backward.
    fn words_backward(ctx: &mut EditContext, n: usize)
        ensures
            final(ctx).cv() == with_cursor(old(ctx).cv(), words_backward(old(ctx).cv().cursor, old(ctx).cv().text, n as nat)),
            final(ctx).coordinate == old(ctx).coordinate,
            final(ctx).cursor.extra_selections == old(ctx).cursor.extra_selections,
    {
        let ghost cv0 = ctx.cv();
        let mut i: usize = 0;
        while i < n
            invariant
                0 <= i <= n,
                ctx.cv() == with_cursor(cv0, ctx.cv().cursor),
                words_backward(ctx.cv().cursor, cv0.text, (n - i) as nat) == words_backward(cv0.cursor, cv0.text, n as nat),
                ctx.coordinate == old(ctx).coordinate,
                ctx.cursor.extra_selections == old(ctx).cursor.extra_selections,
                cv0 == old(ctx).cv(),
            decreases n - i,
        {
            ctx.cursor.move_word_backward(ctx.text);
            i = i + 1;
        }
    }

    /// Deletes the cursor's line `n` times.
    fn delete_lines(ctx: &mut EditContext, n: usize)
        requires
            lines_deleted_ok(old(ctx).cv(), old(ctx).coordinate, n as nat),
        ensures
            final(ctx).cv() == lines_deleted(old(ctx).cv(), old(ctx).coordinate, n as nat),
            final(ctx).coordinate == old(ctx).coordinate,
            final(ctx).cursor.extra_selections == old(ctx).cursor.extra_selections,
    {
        let ghost goal = lines_deleted(ctx.cv(), ctx.coordinate, n as nat);
        let mut i: usize = 0;
        while i < n
            invariant
                0 <= i <= n,
                lines_deleted(ctx.cv(), ctx.coordinate, (n - i) as nat) == goal,
                lines_deleted_ok(ctx.cv(), ctx.coordinate, (n - i) as nat),
                goal == lines_deleted(old(ctx).cv(), old(ctx).coordinate, n as nat),
                ctx.coordinate == old(ctx).coordinate,
                ctx.cursor.extra_selections == old(ctx).cursor.extra_selections,
            decreases n - i,
        {
            ctx.delete_line();
            i = i + 1;
        }
    }

    /// Deletes from the cursor to the start of the next word, `n` times.
    fn delete_words(ctx: &mut EditContext, n: usize)
        requires
            words_deleted_ok(old(ctx).cv(), old(ctx).coordinate, n as nat),
        ensures
            final(ctx).cv() == words_deleted(old(ctx).cv(), old(ctx).coordinate, n as nat),
            final(ctx).coordinate == old(ctx).coordinate,
            final(ctx).cursor.extra_selections == old(ctx).cursor.extra_selections,
    {
        let ghost goal = words_deleted(ctx.cv(), ctx.coordinate, n as nat);
        let mut i: usize = 0;
        while i < n
            invariant
                0 <= i <= n,
                words_deleted(ctx.cv(), ctx.coordinate, (n - i) as nat) == goal,
                words_deleted_ok(ctx.cv(), ctx.coordinate, (n - i) as nat),
                goal == words_deleted(old(ctx).cv(), old(ctx).coordinate, n as nat),
                ctx.coordinate == old(ctx).coordinate,
                ctx.cursor.extra_selections == old(ctx).cursor.extra_selections,
            decreases n - i,
        {
            let mut probe = ScrollCursor::at(ctx.cursor.position());
            probe.move_word_forward(ctx.text);
            let end = probe.position().to_offset(ctx.text);
            proof {
                let t = ctx.cv().text;
                let h = probe.selection.head;
                vstd::utf8::encode_utf8_valid_utf8((*ctx.text)@);
                crate::cursor::lemma_offset_boundary(t, h.line as nat, h.col as nat, 0);
                crate::cursor::lemma_offset_search_le(t, h.line as nat, h.col as nat, 0);
            }
            ctx.delete_to(end);
            i = i + 1;
        }
    }

    /// Deletes from the cursor to the end of its line.
    fn delete_to_line_end(ctx: &mut EditContext)
        requires
            engine_wf(old(ctx).cv().undo),
            old(ctx).cv().undo.global < usize::MAX,
        ensures
            final(ctx).cv() == cv_delete_to(old(ctx).cv(), old(ctx).coordinate, line_end_offset(old(ctx).cv())),
            final(ctx).coordinate == old(ctx).coordinate,
            final(ctx).cursor.extra_selections == old(ctx).cursor.extra_selections,
    {
        let mut probe = ScrollCursor::at(ctx.cursor.position());
        probe.move_end(ctx.text);
        let end = probe.position().to_offset(ctx.text);
        proof {
            let t = ctx.cv().text;
            let h = probe.selection.head;
            vstd::utf8::encode_utf8_valid_utf8((*ctx.text)@);
            crate::cursor::lemma_offset_boundary(t, h.line as nat, h.col as nat, 0);
            crate::cursor::lemma_offset_search_le(t, h.line as nat, h.col as nat, 0);
        }
        ctx.delete_to(end);
    }

    /// Handles a key in normal mode.
    #[verifier::rlimit(80)]
    fn handle_normal(&mut self, key: EditKey, ctx: &mut EditContext) -> (r: EditResult)
        requires
            normal_ok(old(self)@, key, old(ctx).cv(), old(ctx).coordinate),
        ensures
            (final(self)@, final(ctx).cv(), r@) == normal_step(old(self)@, key, old(ctx).cv(), old(ctx).coordinate),
            final(ctx).coordinate == old(ctx).coordinate,
            final(ctx).cursor.extra_selections == old(ctx).cursor.extra_selections,
    {
        if self.pending_is('d') && key.code == EditKeyCode::Char('w') {
            let n = self.effective_count();
            Self::delete_words(ctx, n);
            self.clear_pending();
            return EditResult::TextChanged;
        }
        if self.pending_is('d') && key.code == EditKeyCode::Char('$') {
            Self::delete_to_line_end(ctx);
            self.clear_pending();
            return EditResult::TextChanged;
        }
        match key.code {
            EditKeyCode::Char(c) if '0' <= c && c <= '9' && (c != '0' || self.count.is_some()) => {
                let digit = (c as u32 - 48) as usize;
                let so_far = match self.count {
                    Some(k) => k,
                    None => 0,
                };
                self.count = Some(so_far * 10 + digit);
                return EditResult::Nothing;
            },
            EditKeyCode::Char('i') => {
                self.sub_mode = VimSubMode::Insert;
                self.clear_pending();
                return status("-- INSERT --");
            },
            EditKeyCode::Char('a') => {
                ctx.cursor.move_right(ctx.text, 1);
                self.sub_mode = VimSubMode::Insert;
                self.clear_pending();
                return EditResult::CursorMoved;
            },
            EditKeyCode::Char('A') => {
                ctx.cursor.move_end(ctx.text);
                self.sub_mode = VimSubMode::Insert;
                self.clear_pending();
                return EditResult::CursorMoved;
            },
            EditKeyCode::Char('I') => {
                ctx.cursor.move_home();
                self.sub_mode = VimSubMode::Insert;
                self.clear_pending();
                return EditResult::CursorMoved;
            },
            EditKeyCode::Char('o') => {
                ctx.cursor.move_end(ctx.text);
                let nl = newline();
                ctx.insert(nl.as_str());
                self.sub_mode = VimSubMode::Insert;
                self.clear_pending();
                return EditResult::TextChanged;
            },
            EditKeyCode::Char('O') => {
                ctx.cursor.move_home();
                let nl = newline();
                ctx.insert(nl.as_str());
                ctx.cursor.move_up(ctx.text, 1);
                self.sub_mode = VimSubMode::Insert;
                self.clear_pending();
                return EditResult::TextChanged;
            },
            EditKeyCode::Char('v') => {
                let p = ctx.cursor.position();
                ctx.cursor.selection.anchor = p;
                self.sub_mode = VimSubMode::Visual;
                self.clear_pending();
                return status("-- VISUAL --");
            },
            EditKeyCode::Char(':') => {
                self.sub_mode = VimSubMode::Command;
                self.command_buf.clear();
                self.clear_pending();
                assert(self@.command_buf =~= Seq::<char>::empty());
                return status(":");
            },
            EditKeyCode::Escape => {
                self.clear_pending();
                return EditResult::ExitEdit;
            },
            EditKeyCode::Char('h') | EditKeyCode::Left => {
                let n = self.effective_count();
                ctx.cursor.move_left(ctx.text, n);
                self.clear_pending();
                return EditResult::CursorMoved;
            },
            EditKeyCode::Char('l') | EditKeyCode::Right => {
                let n = self.effective_count();
                ctx.cursor.move_right(ctx.text, n);
                self.clear_pending();
                return EditResult::CursorMoved;
            },
            EditKeyCode::Char('j') | EditKeyCode::Down => {
                let n = self.effective_count();
                ctx.cursor.move_down(ctx.text, n);
                self.clear_pending();
                return EditResult::CursorMoved;
            },
            EditKeyCode::Char('k') | EditKeyCode::Up => {
                let n = self.effective_count();
                ctx.cursor.move_up(ctx.text, n);
                self.clear_pending();
                return EditResult::CursorMoved;
            },
            EditKeyCode::Char('0') => {
                ctx.cursor.move_home();
                self.clear_pending();
                return EditResult::CursorMoved;
            },
            EditKeyCode::Char('$') => {
                ctx.cursor.move_end(ctx.text);
                self.clear_pending();
                return EditResult::CursorMoved;
            },
            EditKeyCode::Char('w') => {
                let n = self.effective_count();
                Self::words_forward(ctx, n);
                self.clear_pending();
                return EditResult::CursorMoved;
            },
            EditKeyCode::Char('b') => {
                let n = self.effective_count();
                Self::words_backward(ctx, n);
                self.clear_pending();
                return EditResult::CursorMoved;
            },
            EditKeyCode::Char('g') if self.pending_empty() => {
                self.pending.push('g');
                assert(self@.pending =~= seq!['g']);
                return EditResult::Nothing;
            },
            EditKeyCode::Char('G') => {
                match self.count {
                    Some(n) => {
                        let line = if n > 0 {
                            n - 1
                        } else {
                            0
                        };
                        ctx.cursor.move_to(Position::new(line, 0));
                    },
                    None => {
                        ctx.cursor.move_bottom(ctx.text);
                    },
                }
                self.clear_pending();
                return EditResult::CursorMoved;
            },
            EditKeyCode::Char('x') => {
                let n = self.effective_count();
                ctx.delete_forward(n);
                self.clear_pending();
                return EditResult::TextChanged;
            },
            EditKeyCode::Char('X') => {
                let n = self.effective_count();
                ctx.delete_backward(n);
                self.clear_pending();
                return EditResult::TextChanged;
            },
            EditKeyCode::Char('d') if self.pending_empty() => {
                self.pending.push('d');
                assert(self@.pending =~= seq!['d']);
                return EditResult::Nothing;
            },
            EditKeyCode::Char('d') if self.pending_is('d') => {
                let n = self.effective_count();
                Self::delete_lines(ctx, n);
                self.clear_pending();
                return EditResult::TextChanged;
            },
            EditKeyCode::Char('u') => {
                self.clear_pending();
                if ctx.undo() {
                    return EditResult::TextChanged;
                }
                return status("Already at oldest change");
            },
            EditKeyCode::Char('r') if key.ctrl => {
                self.clear_pending();
                if ctx.redo() {
                    return EditResult::TextChanged;
                }
                return status("Already at newest change");
            },
            _ => {},
        }
        if self.pending_is('g') && key.code == EditKeyCode::Char('g') {
            match self.count {
                Some(n) => {
                    let line = if n > 0 {
                        n - 1
                    } else {
                        0
                    };
                    ctx.cursor.move_to(Position::new(line, 0));
                },
                None => {
                    ctx.cursor.move_top();
                },
            }
            self.clear_pending();
            return EditResult::CursorMoved;
        }
        self.clear_pending();
        EditResult::Nothing
    }

    /// Handles a key in insert mode.
    fn handle_insert(&mut self, key: EditKey, ctx: &mut EditContext) -> (r: EditResult)
        requires
            insert_mode_ok(key, old(ctx).cv()),
        ensures
            (final(self)@, final(ctx).cv(), r@) == insert_step(old(self)@, key, old(ctx).cv(), old(ctx).coordinate),
            final(ctx).coordinate == old(ctx).coordinate,
            final(ctx).cursor.extra_selections == old(ctx).cursor.extra_selections,
    {
        match key.code {
            EditKeyCode::Escape => {
                self.sub_mode = VimSubMode::Normal;
                ctx.cursor.move_left(ctx.text, 1);
                status("")
            },
            EditKeyCode::Char(c) => {
                let s = string_from_char(c);
                ctx.insert(s.as_str());
                EditResult::TextChanged
            },
            EditKeyCode::Enter => {
                ctx.insert_newline();
                EditResult::TextChanged
            },
            EditKeyCode::Backspace => {
                ctx.delete_backward(1);
                EditResult::TextChanged
            },
            EditKeyCode::Delete => {
                ctx.delete_forward(1);
                EditResult::TextChanged
            },
            EditKeyCode::Left => {
                ctx.cursor.move_left(ctx.text, 1);
                EditResult::CursorMoved
            },
            EditKeyCode::Right => {
                ctx.cursor.move_right(ctx.text, 1);
                EditResult::CursorMoved
            },
            EditKeyCode::Up => {
                ctx.cursor.move_up(ctx.text, 1);
                EditResult::CursorMoved
            },
            EditKeyCode::Down => {
                ctx.cursor.move_down(ctx.text, 1);
                EditResult::CursorMoved
            },
            EditKeyCode::Home => {
                ctx.cursor.move_home();
                EditResult::CursorMoved
            },
            EditKeyCode::End => {
                ctx.cursor.move_end(ctx.text);
                EditResult::CursorMoved
            },
            EditKeyCode::Tab => {
                let spaces = soft_tab();
                ctx.insert(spaces.as_str());
                EditResult::TextChanged
            },
            _ => EditResult::Nothing,
        }
    }

    /// Handles a key in visual mode.
    fn handle_visual(&mut self, key: EditKey, ctx: &mut EditContext) -> (r: EditResult)
        requires
            visual_ok(key, old(ctx).cv()),
        ensures
            (final(self)@, final(ctx).cv(), r@) == visual_step(old(self)@, key, old(ctx).cv(), old(ctx).coordinate),
            final(ctx).coordinate == old(ctx).coordinate,
            final(ctx).cursor.extra_selections == old(ctx).cursor.extra_selections,
    {
        match key.code {
            EditKeyCode::Escape => {
                self.sub_mode = VimSubMode::Normal;
                let p = ctx.cursor.position();
                ctx.cursor.selection.anchor = p;
                self.clear_pending();
                return status("");
            },
            EditKeyCode::Char('h') | EditKeyCode::Left => {
                let head = ctx.cursor.position();
                let offset = head.to_offset(ctx.text);
                proof {
                    crate::cursor::lemma_offset_search_le(ctx.cv().text, head.line as nat, head.col as nat, 0);
                }
                let to = offset_chars_left(ctx.text.as_str(), offset, 1);
                let p = Position::from_offset(ctx.text, to);
                ctx.cursor.select_to(p);
                return EditResult::CursorMoved;
            },
            EditKeyCode::Char('l') | EditKeyCode::Right => {
                let head = ctx.cursor.position();
                let offset = head.to_offset(ctx.text);
                proof {
                    crate::cursor::lemma_offset_search_le(ctx.cv().text, head.line as nat, head.col as nat, 0);
                }
                let to = offset_chars_right(ctx.text.as_str(), offset, 1);
                let p = Position::from_offset(ctx.text, to);
                ctx.cursor.select_to(p);
                return EditResult::CursorMoved;
            },
            EditKeyCode::Char('j') | EditKeyCode::Down => {
                ctx.cursor.move_down(ctx.text, 1);
                let p = ctx.cursor.position();
                ctx.cursor.selection.head = p;
                return EditResult::CursorMoved;
            },
            EditKeyCode::Char('k') | EditKeyCode::Up => {
                ctx.cursor.move_up(ctx.text, 1);
                let p = ctx.cursor.position();
                ctx.cursor.selection.head = p;
                return EditResult::CursorMoved;
            },
            EditKeyCode::Char('d') | EditKeyCode::Char('x') => {
                proof {
                    reveal_strlit("");
                }
                assert(encode_utf8(""@) =~= Seq::<u8>::empty());
                ctx.replace_selection("");
                self.sub_mode = VimSubMode::Normal;
                self.clear_pending();
                return EditResult::TextChanged;
            },
            EditKeyCode::Char('c') => {
                proof {
                    reveal_strlit("");
                }
                assert(encode_utf8(""@) =~= Seq::<u8>::empty());
                ctx.replace_selection("");
                self.sub_mode = VimSubMode::Insert;
                self.clear_pending();
                return EditResult::TextChanged;
            },
            _ => {},
        }
        EditResult::Nothing
    }

    /// Handles a key on the command line.
    fn handle_command(&mut self, key: EditKey, ctx: &mut EditContext) -> (r: EditResult)
        ensures
            (final(self)@, r@) == command_step(old(self)@, key),
            final(ctx).cv() == old(ctx).cv(),
            final(ctx).coordinate == old(ctx).coordinate,
            final(ctx).cursor.extra_selections == old(ctx).cursor.extra_selections,
    {
        match key.code {
            EditKeyCode::Escape => {
                self.sub_mode = VimSubMode::Normal;
                self.command_buf.clear();
                assert(self@.command_buf =~= Seq::<char>::empty());
                status("")
            },
            EditKeyCode::Enter => {
                let cmd = self.command_buf.clone();
                self.sub_mode = VimSubMode::Normal;
                self.command_buf.clear();
                assert(self@.command_buf =~= Seq::<char>::empty());
                self.execute_command(cmd.as_slice(), ctx)
            },
            EditKeyCode::Backspace => {
                self.command_buf.pop();
                if self.command_buf.len() == 0 {
                    self.sub_mode = VimSubMode::Normal;
                    return status("");
                }
                let shown = string_from_chars(self.command_buf.as_slice());
                EditResult::Status(concat_str(":", shown.as_str()))
            },
            EditKeyCode::Char(c) => {
                self.command_buf.push(c);
                let shown = string_from_chars(self.command_buf.as_slice());
                EditResult::Status(concat_str(":", shown.as_str()))
            },
            _ => EditResult::Nothing,
        }
    }

    /// Runs a command line.
    fn execute_command(&self, cmd: &[char], _ctx: &EditContext) -> (r: EditResult)
        ensures
            r@ == command_result(cmd@),
    {
        let (s, e) = trimmed_range(cmd);
        if chars_eq(cmd, s, e, "q") || chars_eq(cmd, s, e, "q!") || chars_eq(cmd, s, e, "wq") {
            return EditResult::ExitEdit;
        }
        if chars_eq(cmd, s, e, "w") {
            return status("Written (save via lattice)");
        }
        let shown = string_from_chars(cmd);
        EditResult::Status(concat_str("Unknown command: ", shown.as_str()))
    }
}

} // verus!

verus! {

/// The name shown for a sub-mode.
pub open spec fn mode_name(m: VimSubMode) -> Seq<char> {
    match m {
        VimSubMode::Normal => "NORMAL"@,
        VimSubMode::Insert => "INSERT"@,
        VimSubMode::Visual => "VISUAL"@,
        VimSubMode::Command => "COMMAND"@,
    }
}

/// The key hints shown for a sub-mode.
pub open spec fn mode_hint(m: VimSubMode) -> Seq<char> {
    match m {
        VimSubMode::Normal => "i:insert a:append o:open d:delete u:undo ^R:redo v:visual Esc:exit"@,
        VimSubMode::Insert => "Esc:normal"@,
        VimSubMode::Visual => "d:delete c:change Esc:normal"@,
        VimSubMode::Command => "Enter:execute Esc:cancel"@,
    }
}

/// The cursor style of a sub-mode: a block in normal and visual mode, a
/// bar in insert and command mode.
pub open spec fn mode_cursor(m: VimSubMode) -> CursorStyle {
    match m {
        VimSubMode::Normal => CursorStyle::Block,
        VimSubMode::Insert => CursorStyle::Line,
        VimSubMode::Visual => CursorStyle::Block,
        VimSubMode::Command => CursorStyle::Line,
    }
}

impl EditorMode for VimMode {
    open spec fn accepts(&self, key: EditKey, cv: ContextView, coord: Coordinate) -> bool {
        vim_ok(self@, key, cv, coord)
    }

    fn name(&self) -> (r: &str)
        ensures
            r@ == mode_name(self@.sub_mode),
    {
        match self.sub_mode {
            VimSubMode::Normal => "NORMAL",
            VimSubMode::Insert => "INSERT",
            VimSubMode::Visual => "VISUAL",
            VimSubMode::Command => "COMMAND",
        }
    }

    fn handle_key(&mut self, key: EditKey, ctx: &mut EditContext) -> (r: EditResult)
        ensures
            (final(self)@, final(ctx).cv(), r@) == vim_step(old(self)@, key, old(ctx).cv(), old(ctx).coordinate),
            final(ctx).coordinate == old(ctx).coordinate,
            final(ctx).cursor.extra_selections == old(ctx).cursor.extra_selections,
    {
        match self.sub_mode {
            VimSubMode::Normal => self.handle_normal(key, ctx),
            VimSubMode::Insert => self.handle_insert(key, ctx),
            VimSubMode::Visual => self.handle_visual(key, ctx),
            VimSubMode::Command => self.handle_command(key, ctx),
        }
    }

    fn cursor_style(&self) -> (r: CursorStyle)
        ensures
            r == mode_cursor(self@.sub_mode),
    {
        match self.sub_mode {
            VimSubMode::Normal => CursorStyle::Block,
            VimSubMode::Insert => CursorStyle::Line,
            VimSubMode::Visual => CursorStyle::Block,
            VimSubMode::Command => CursorStyle::Line,
        }
    }

    fn status_hint(&self) -> (r: &str)
        ensures
            r@ == mode_hint(self@.sub_mode),
    {
        match self.sub_mode {
            VimSubMode::Normal => "i:insert a:append o:open d:delete u:undo ^R:redo v:visual Esc:exit",
            VimSubMode::Insert => "Esc:normal",
            VimSubMode::Visual => "d:delete c:change Esc:normal",
            VimSubMode::Command => "Enter:execute Esc:cancel",
        }
    }

    fn transition(&mut self) -> (r: Option<Box<VimMode>>)
        ensures
            r is None,
            final(self)@ == old(self)@,
    {
        None
    }
}

/// A count repeats `b`: with count `n >= 2`, `b` leaves the context as `b`
/// with count `n - 1` leaves the context that one plain `b` leaves; and
/// with count 1 it does what a plain `b` does.
pub proof fn lemma_counted_word_backward(v: VimView, k: EditKey, cv: ContextView, coord: Coordinate, n: usize)
    requires
        k.code == EditKeyCode::Char('b'),
        n >= 1,
    ensures
        n >= 2 ==> normal_step(VimView { count: Some(n), ..v }, k, cv, coord).1 == normal_step(
            VimView { count: Some((n - 1) as usize), ..v },
            k,
            normal_step(VimView { count: None, ..v }, k, cv, coord).1,
            coord,
        ).1,
        n == 1 ==> normal_step(VimView { count: Some(n), ..v }, k, cv, coord).1 == normal_step(
            VimView { count: None, ..v },
            k,
            cv,
            coord,
        ).1,
        normal_step(VimView { count: None, ..v }, k, cv, coord).1 == with_cursor(
            cv,
            cs_word_backward(cv.cursor, cv.text),
        ),
{
    let one = normal_step(VimView { count: None, ..v }, k, cv, coord).1;
    assert(words_backward(cv.cursor, cv.text, 1) == words_backward(cs_word_backward(cv.cursor, cv.text), cv.text, 0));
    if n >= 2 {
        assert(words_backward(cv.cursor, cv.text, n as nat) == words_backward(
            cs_word_backward(cv.cursor, cv.text),
            cv.text,
            (n - 1) as nat,
        ));
        assert(one.cursor == cs_word_backward(cv.cursor, cv.text));
        assert(one.text == cv.text);
    }
}

/// A count repeats `w` the same way: with count `n >= 2`, `w` leaves the
/// context as `w` with count `n - 1` leaves the context that one plain `w`
/// leaves; a plain `w` moves to the start of the next word.
pub proof fn lemma_counted_word_forward(v: VimView, k: EditKey, cv: ContextView, coord: Coordinate, n: usize)
    requires
        k.code == EditKeyCode::Char('w'),
        v.pending != seq!['d'],
        n >= 2,
    ensures
        normal_step(VimView { count: Some(n), ..v }, k, cv, coord).1 == normal_step(
            VimView { count: Some((n - 1) as usize), ..v },
            k,
            normal_step(VimView { count: None, ..v }, k, cv, coord).1,
            coord,
        ).1,
        normal_step(VimView { count: None, ..v }, k, cv, coord).1 == with_cursor(
            cv,
            cs_word_forward(cv.cursor, cv.text),
        ),
{
    let one = normal_step(VimView { count: None, ..v }, k, cv, coord).1;
    assert(words_forward(cv.cursor, cv.text, 1) == words_forward(cs_word_forward(cv.cursor, cv.text), cv.text, 0));
    assert(words_forward(cv.cursor, cv.text, n as nat) == words_forward(
        cs_word_forward(cv.cursor, cv.text),
        cv.text,
        (n - 1) as nat,
    ));
    assert(one.cursor == cs_word_forward(cv.cursor, cv.text));
    assert(one.text == cv.text);
}

} // verus!
