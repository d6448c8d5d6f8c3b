use phext_lattice::coordinate::{XCoordinate, YCoordinate, ZCoordinate};
use phext_lattice::cursor::{line_count, line_length};
use phext_lattice::{
    Coordinate, CursorStyle, EditContext, EditKey, EditKeyCode, EditOp, EditResult, EditorMode,
    LatticeIndex, Position, ScrollCursor, Selection, UndoEngine, VimMode,
};

const SAMPLE: &str = "Hello World\nSecond line\nThird";

fn coord(s: &str) -> Coordinate {
    let v: Vec<usize> = s.split(|c| c == '.' || c == '/').map(|p| p.parse().unwrap()).collect();
    Coordinate {
        z: ZCoordinate { library: v[0], shelf: v[1], series: v[2] },
        y: YCoordinate { collection: v[3], volume: v[4], book: v[5] },
        x: XCoordinate { chapter: v[6], section: v[7], scroll: v[8] },
    }
}

fn press(mode: &mut VimMode, key: EditKey, text: &mut String, cursor: &mut ScrollCursor, undo: &mut UndoEngine) -> EditResult {
    let mut ctx = EditContext::new(coord("1.1.1/1.1.1/1.1.1"), text, cursor, undo);
    mode.handle_key(key, &mut ctx)
}

#[test]
fn position_roundtrip() {
    let text = SAMPLE;
    for offset in 0..=text.len() {
        let pos = Position::from_offset(text, offset);
        let back = pos.to_offset(text);
        assert!(back <= offset || back == offset, "offset {} -> {:?} -> {}", offset, pos, back);
    }
}

#[test]
fn position_line_col() {
    let pos = Position::from_offset(SAMPLE, 12);
    assert_eq!(pos.line, 1);
    assert_eq!(pos.col, 0);
}

#[test]
fn position_offsets_clamp() {
    assert_eq!(Position::new(0, 99).to_offset(SAMPLE), 11);
    assert_eq!(Position::new(9, 0).to_offset(SAMPLE), SAMPLE.len());
    assert_eq!(Position::from_offset(SAMPLE, 1000), Position::new(2, 5));
    assert_eq!(Position::new(1, 4).display(), "2:5");
    assert_eq!(line_length(SAMPLE, 1), 11);
    assert_eq!(line_length(SAMPLE, 7), 0);
    assert_eq!(line_count(SAMPLE), 3);
    assert_eq!(line_count(""), 0);
}

#[test]
fn cursor_movement() {
    let mut cursor = ScrollCursor::new();
    cursor.move_right(SAMPLE, 5);
    assert_eq!(cursor.position(), Position::new(0, 5));
    cursor.move_down(SAMPLE, 1);
    assert_eq!(cursor.position().line, 1);
    cursor.move_home();
    assert_eq!(cursor.position().col, 0);
    cursor.move_end(SAMPLE);
    assert_eq!(cursor.position().col, 11);
}

#[test]
fn cursor_wraps_across_lines() {
    let mut cursor = ScrollCursor::new();
    cursor.move_end(SAMPLE);
    cursor.move_right(SAMPLE, 1);
    assert_eq!(cursor.position(), Position::new(1, 0));
    cursor.move_left(SAMPLE, 1);
    assert_eq!(cursor.position(), Position::new(0, 11));
    cursor.move_left(SAMPLE, 100);
    assert_eq!(cursor.position(), Position::origin());
    cursor.move_bottom(SAMPLE);
    assert_eq!(cursor.position(), Position::new(2, 5));
    cursor.move_top();
    assert_eq!(cursor.position(), Position::origin());
}

#[test]
fn cursor_sticky_col() {
    let text = "Short\nA much longer line\nTiny";
    let mut cursor = ScrollCursor::new();
    cursor.move_end(text);
    cursor.move_down(text, 1);
    assert_eq!(cursor.position(), Position::new(1, 5));
    cursor.move_down(text, 1);
    assert_eq!(cursor.position(), Position::new(2, 4));
    cursor.move_up(text, 1);
    assert_eq!(cursor.position(), Position::new(1, 5));
}

#[test]
fn selection_ordering() {
    let sel = Selection { anchor: Position::new(2, 5), head: Position::new(0, 3) };
    assert_eq!(sel.start(), Position::new(0, 3));
    assert_eq!(sel.end(), Position::new(2, 5));
    assert!(!sel.is_cursor());
    assert!(Selection::cursor(Position::new(1, 1)).is_cursor());
}

#[test]
fn select_to_extends_selection() {
    let mut cursor = ScrollCursor::at(Position::new(0, 2));
    cursor.select_to(Position::new(1, 3));
    assert_eq!(cursor.selection.anchor, Position::new(0, 2));
    assert_eq!(cursor.position(), Position::new(1, 3));
    cursor.move_to(Position::new(0, 0));
    assert!(cursor.selection.is_cursor());
}

#[test]
fn word_movement() {
    let text = "hello world foo";
    let mut cursor = ScrollCursor::new();
    cursor.move_word_forward(text);
    assert_eq!(cursor.position(), Position::new(0, 6));
    cursor.move_word_forward(text);
    assert_eq!(cursor.position(), Position::new(0, 12));
    cursor.move_word_backward(text);
    assert_eq!(cursor.position(), Position::new(0, 6));
}

#[test]
fn edit_op_insert_apply() {
    let op = EditOp::Insert { offset: 5, text: " beautiful".to_string() };
    assert_eq!(op.apply("Hello World"), "Hello beautiful World");
}

#[test]
fn edit_op_delete_apply() {
    let op = EditOp::Delete { offset: 5, deleted: " World".to_string() };
    assert_eq!(op.apply("Hello World"), "Hello");
}

#[test]
fn edit_op_replace_apply() {
    let op = EditOp::Replace { offset: 6, old_text: "World".to_string(), new_text: "Lattice".to_string() };
    assert_eq!(op.apply("Hello World"), "Hello Lattice");
}

#[test]
fn edit_op_inverse() {
    let op = EditOp::Insert { offset: 5, text: "xyz".to_string() };
    let inv = op.inverse();
    let text = op.apply("Hello");
    assert_eq!(inv.apply(&text), "Hello");
}

#[test]
fn edit_op_inverse_twice_is_identity() {
    let op = EditOp::Replace { offset: 1, old_text: "ab".to_string(), new_text: "xyz".to_string() };
    let back = op.inverse().inverse();
    assert_eq!(back.apply("0ab1"), op.apply("0ab1"));
    assert_eq!(op.inverse().apply(&op.apply("0ab1")), "0ab1");
}

#[test]
fn edit_op_serialize_roundtrip() {
    let op = EditOp::Insert { offset: 42, text: "hello world".to_string() };
    let before = Position::new(2, 6);
    let after = Position::new(2, 17);
    let scroll = op.to_scroll(before, after);
    let (recovered_op, recovered_before, recovered_after) = EditOp::from_scroll(&scroll).unwrap();
    assert_eq!(recovered_before, before);
    assert_eq!(recovered_after, after);
    match recovered_op {
        EditOp::Insert { offset, text } => {
            assert_eq!(offset, 42);
            assert_eq!(text, "hello world");
        }
        _ => panic!("wrong op type"),
    }
}

#[test]
fn edit_op_scroll_text() {
    let op = EditOp::Delete { offset: 3, deleted: "ab".to_string() };
    let scroll = op.to_scroll(Position::new(0, 5), Position::new(0, 3));
    assert_eq!(scroll, "op:delete\noffset:3\nlen:2\ncursor:1:6>1:4\n---\nab");
    let rep = EditOp::Replace { offset: 0, old_text: "a".to_string(), new_text: "bc".to_string() };
    let s = rep.to_scroll(Position::origin(), Position::new(0, 2));
    match EditOp::from_scroll(&s).unwrap().0 {
        EditOp::Replace { offset, old_text, new_text } => {
            assert_eq!(offset, 0);
            assert_eq!(old_text, "a");
            assert_eq!(new_text, "bc");
        }
        _ => panic!("wrong op type"),
    }
    assert!(EditOp::from_scroll("op:move\noffset:1\nlen:0\ncursor:1:1>1:1\n---\n").is_none());
    assert!(EditOp::from_scroll("op:insert\noffset:x\nlen:0\ncursor:1:1>1:1\n---\n").is_none());
    assert!(EditOp::from_scroll("op:insert\noffset:1\nlen:0\ncursor:1:1>1:1\n--\n").is_none());
}

#[test]
fn undo_redo_basic() {
    let mut engine = UndoEngine::new();
    let target = coord("1.1.1/1.1.1/1.1.1");
    let mut text = "Hello World".to_string();
    let op = EditOp::Insert { offset: 5, text: " Beautiful".to_string() };
    let new_text = op.apply(&text);
    engine.record(target, op, Position::new(0, 5), Position::new(0, 15));
    text = new_text;
    assert_eq!(text, "Hello Beautiful World");
    let (undo_op, cursor) = engine.undo(&target).unwrap();
    text = undo_op.apply(&text);
    assert_eq!(text, "Hello World");
    assert_eq!(cursor, Position::new(0, 5));
    let (redo_op, cursor) = engine.redo(&target).unwrap();
    text = redo_op.apply(&text);
    assert_eq!(text, "Hello Beautiful World");
    assert_eq!(cursor, Position::new(0, 15));
}

#[test]
fn undo_truncates_redo() {
    let mut engine = UndoEngine::new();
    let target = coord("1.1.1/1.1.1/1.1.1");
    engine.record(target, EditOp::Insert { offset: 0, text: "A".to_string() }, Position::origin(), Position::new(0, 1));
    engine.record(target, EditOp::Insert { offset: 1, text: "B".to_string() }, Position::new(0, 1), Position::new(0, 2));
    engine.undo(&target);
    engine.record(target, EditOp::Insert { offset: 1, text: "C".to_string() }, Position::new(0, 1), Position::new(0, 2));
    assert!(!engine.can_redo(&target));
    assert_eq!(engine.depth(&target), 2);
}

#[test]
fn undo_on_unknown_scroll() {
    let mut engine = UndoEngine::new();
    let target = coord("1.1.1/1.1.1/1.1.1");
    assert!(engine.undo(&target).is_none());
    assert!(engine.redo(&target).is_none());
    assert!(!engine.can_undo(&target));
    assert_eq!(engine.depth(&target), 0);
    assert_eq!(engine.total_edits(), 0);
    engine.record(target, EditOp::Insert { offset: 0, text: "A".to_string() }, Position::origin(), Position::new(0, 1));
    assert!(engine.can_undo(&target));
    assert!(engine.redo(&target).is_none());
    assert_eq!(engine.total_edits(), 1);
}

#[test]
fn work_phext_roundtrip() {
    let mut engine = UndoEngine::new();
    let t1 = coord("1.1.1/1.1.1/1.1.1");
    let t2 = coord("3.3.3/5.1.2/1.5.2");
    engine.record(t1, EditOp::Insert { offset: 0, text: "Hello".to_string() }, Position::origin(), Position::new(0, 5));
    engine.record(t1, EditOp::Delete { offset: 0, deleted: "He".to_string() }, Position::new(0, 0), Position::new(0, 0));
    engine.record(t2, EditOp::Insert { offset: 0, text: "World".to_string() }, Position::origin(), Position::new(0, 5));
    let work_bytes = engine.to_work_phext();
    assert!(!work_bytes.is_empty());
    let work_index = LatticeIndex::build(&work_bytes);
    assert_eq!(work_index.scroll_count(), 3);
    let source_index = LatticeIndex::build(b"dummy");
    let loaded = UndoEngine::from_work_phext(&work_bytes, &source_index);
    assert_eq!(loaded.dirty_scrolls().len(), 2);
    assert_eq!(loaded.depth(&t1), 2);
    assert_eq!(loaded.total_edits(), 3);
}

#[test]
fn work_phext_reads_back_one_scroll() {
    let mut engine = UndoEngine::new();
    let t = coord("1.1.1/1.1.1/1.1.1");
    engine.record(t, EditOp::Insert { offset: 0, text: "Hello".to_string() }, Position::origin(), Position::new(0, 5));
    engine.record(t, EditOp::Replace { offset: 0, old_text: "He".to_string(), new_text: "Je".to_string() }, Position::new(0, 0), Position::new(0, 2));
    let bytes = engine.to_work_phext();
    let mut loaded = UndoEngine::from_work_phext(&bytes, &LatticeIndex::build(b""));
    assert_eq!(loaded.depth(&t), 2);
    assert_eq!(loaded.total_edits(), 2);
    let (inv, cursor) = loaded.undo(&t).unwrap();
    assert!(matches!(&inv, EditOp::Replace { offset: 0, old_text, new_text } if old_text == "Je" && new_text == "He"));
    assert_eq!(cursor, Position::new(0, 0));
    let (inv, cursor) = loaded.undo(&t).unwrap();
    assert!(matches!(&inv, EditOp::Delete { offset: 0, deleted } if deleted == "Hello"));
    assert_eq!(cursor, Position::origin());
}

#[test]
fn work_phext_keeps_far_scrolls() {
    let mut engine = UndoEngine::new();
    let t2 = coord("3.3.3/5.1.2/1.1.1");
    engine.record(t2, EditOp::Insert { offset: 0, text: "World".to_string() }, Position::origin(), Position::new(0, 5));
    let bytes = engine.to_work_phext();
    let loaded = UndoEngine::from_work_phext(&bytes, &LatticeIndex::build(b""));
    assert_eq!(loaded.depth(&t2), 1);
    assert_eq!(loaded.depth(&coord("1.1.1/1.1.1/1.1.1")), 0);
}

#[test]
fn work_phext_places_records_at_work_coordinates() {
    let mut engine = UndoEngine::new();
    let t1 = coord("1.1.1/1.1.1/1.1.1");
    let t2 = coord("3.3.3/5.1.2/1.5.2");
    engine.record(t1, EditOp::Insert { offset: 0, text: "Hello".to_string() }, Position::origin(), Position::new(0, 5));
    engine.record(t1, EditOp::Delete { offset: 0, deleted: "He".to_string() }, Position::new(0, 0), Position::new(0, 0));
    engine.record(t2, EditOp::Insert { offset: 0, text: "World".to_string() }, Position::origin(), Position::new(0, 5));
    let bytes = engine.to_work_phext();
    assert_eq!(
        LatticeIndex::build(&bytes).coordinates(),
        vec![coord("1.1.1/1.1.1/1.1.1"), coord("1.1.1/1.1.1/2.1.1"), coord("3.3.3/5.1.2/1.1.1")]
    );
}

#[test]
fn records_round_trip_with_empty_or_newline_content() {
    let p = Position::new(0, 0);
    let replace = EditOp::Replace { offset: 0, old_text: "abc".to_string(), new_text: "".to_string() };
    let back = EditOp::from_scroll(&replace.to_scroll(p, p)).unwrap();
    assert!(matches!(&back.0, EditOp::Replace { offset: 0, old_text, new_text } if old_text == "abc" && new_text.is_empty()));
    assert_eq!(back.1, p);
    assert_eq!(back.2, p);
    let newline = EditOp::Insert { offset: 3, text: "\n".to_string() };
    let back = EditOp::from_scroll(&newline.to_scroll(p, Position::new(1, 0))).unwrap();
    assert!(matches!(&back.0, EditOp::Insert { offset: 3, text } if text == "\n"));
    assert_eq!(back.2, Position::new(1, 0));
    let empty = EditOp::Delete { offset: 2, deleted: "".to_string() };
    let back = EditOp::from_scroll(&empty.to_scroll(p, p)).unwrap();
    assert!(matches!(&back.0, EditOp::Delete { offset: 2, deleted } if deleted.is_empty()));
}

#[test]
fn cursor_moves_by_characters() {
    let text = "\u{e9}\u{e9}";
    let mut c = ScrollCursor::at(Position::new(0, 2));
    c.move_left(text, 1);
    assert_eq!(c.position(), Position::new(0, 1));
    assert!(c.selection.is_cursor());
    c.move_left(text, 5);
    assert_eq!(c.position(), Position::new(0, 0));
    c.move_right(text, 1);
    assert_eq!(c.position(), Position::new(0, 1));
    c.move_right(text, usize::MAX);
    assert_eq!(c.position(), Position::new(0, 2));
}

#[test]
fn move_bottom_reaches_the_end_of_the_text() {
    let mut c = ScrollCursor::new();
    c.move_bottom("ab\n");
    assert_eq!(c.position(), Position::new(1, 0));
    c.move_bottom(SAMPLE);
    assert_eq!(c.position(), Position::new(2, 5));
    assert!(c.sticky_col.is_none());
    c.move_bottom("");
    assert_eq!(c.position(), Position::new(0, 0));
}

#[test]
fn move_word_backward_finds_word_starts() {
    let mut c = ScrollCursor::at(Position::new(0, 3));
    c.move_word_backward(" hello");
    assert_eq!(c.position(), Position::new(0, 1));
    let text = "hello world foo";
    let mut c = ScrollCursor::at(Position::new(0, 12));
    c.move_word_backward(text);
    assert_eq!(c.position(), Position::new(0, 6));
    c.move_word_backward(text);
    assert_eq!(c.position(), Position::new(0, 0));
}

#[test]
fn delete_counts_characters() {
    let c = coord("1.1.1/1.1.1/1.1.1");
    let mut text = "\u{e9}".to_string();
    let mut cursor = ScrollCursor::at(Position::new(0, 1));
    let mut undo = UndoEngine::new();
    {
        let mut ctx = EditContext::new(c, &mut text, &mut cursor, &mut undo);
        ctx.delete_backward(1);
    }
    assert_eq!(text, "");
    assert_eq!(cursor.position(), Position::new(0, 0));
    assert!(undo.can_undo(&c));
    let mut text = "\u{e9}a".to_string();
    let mut cursor = ScrollCursor::new();
    {
        let mut ctx = EditContext::new(c, &mut text, &mut cursor, &mut undo);
        ctx.delete_forward(1);
    }
    assert_eq!(text, "a");
}

#[test]
fn vim_dw_deletes_the_word() {
    let c = coord("1.1.1/1.1.1/1.1.1");
    let mut mode = VimMode::new();
    let mut text = "hello world".to_string();
    let mut cursor = ScrollCursor::new();
    let mut undo = UndoEngine::new();
    assert_eq!(press(&mut mode, EditKey::char('d'), &mut text, &mut cursor, &mut undo), EditResult::Nothing);
    assert_eq!(press(&mut mode, EditKey::char('w'), &mut text, &mut cursor, &mut undo), EditResult::TextChanged);
    assert_eq!(text, "world");
    assert_eq!(cursor.position(), Position::new(0, 0));
    assert!(undo.can_undo(&c));
}

#[test]
fn vim_d_dollar_deletes_to_line_end() {
    let mut mode = VimMode::new();
    let mut text = "hello world\nnext".to_string();
    let mut cursor = ScrollCursor::at(Position::new(0, 6));
    let mut undo = UndoEngine::new();
    press(&mut mode, EditKey::char('d'), &mut text, &mut cursor, &mut undo);
    assert_eq!(press(&mut mode, EditKey::char('$'), &mut text, &mut cursor, &mut undo), EditResult::TextChanged);
    assert_eq!(text, "hello \nnext");
    assert_eq!(cursor.position(), Position::new(0, 6));
}

#[test]
fn dirty_scrolls() {
    let mut engine = UndoEngine::new();
    let t1 = coord("1.1.1/1.1.1/1.1.1");
    assert!(engine.dirty_scrolls().is_empty());
    engine.record(t1, EditOp::Insert { offset: 0, text: "x".to_string() }, Position::origin(), Position::new(0, 1));
    assert_eq!(engine.dirty_scrolls().len(), 1);
    engine.undo(&t1);
    assert!(engine.dirty_scrolls().is_empty());
}

#[test]
fn context_insert_and_undo() {
    let c = coord("1.1.1/1.1.1/1.1.1");
    let mut text = "Hello".to_string();
    let mut cursor = ScrollCursor::new();
    let mut undo = UndoEngine::new();
    cursor.move_end(&text);
    {
        let mut ctx = EditContext::new(c, &mut text, &mut cursor, &mut undo);
        ctx.insert(" World");
    }
    assert_eq!(text, "Hello World");
    {
        let mut ctx = EditContext::new(c, &mut text, &mut cursor, &mut undo);
        assert!(ctx.undo());
    }
    assert_eq!(text, "Hello");
    assert_eq!(cursor.position(), Position::new(0, 5));
    {
        let mut ctx = EditContext::new(c, &mut text, &mut cursor, &mut undo);
        assert!(ctx.redo());
        assert!(!ctx.redo());
    }
    assert_eq!(text, "Hello World");
}

#[test]
fn context_delete_backward() {
    let c = coord("1.1.1/1.1.1/1.1.1");
    let mut text = "Hello World".to_string();
    let mut cursor = ScrollCursor::new();
    let mut undo = UndoEngine::new();
    cursor.move_to(Position::new(0, 5));
    {
        let mut ctx = EditContext::new(c, &mut text, &mut cursor, &mut undo);
        ctx.delete_backward(2);
    }
    assert_eq!(text, "Hel World");
    {
        let mut ctx = EditContext::new(c, &mut text, &mut cursor, &mut undo);
        assert!(ctx.undo());
    }
    assert_eq!(text, "Hello World");
}

#[test]
fn context_delete_line() {
    let c = coord("1.1.1/1.1.1/1.1.1");
    let mut text = "Line 1\nLine 2\nLine 3".to_string();
    let mut cursor = ScrollCursor::new();
    let mut undo = UndoEngine::new();
    cursor.move_down(&text, 1);
    {
        let mut ctx = EditContext::new(c, &mut text, &mut cursor, &mut undo);
        ctx.delete_line();
    }
    assert_eq!(text, "Line 1\nLine 3");
    {
        let mut ctx = EditContext::new(c, &mut text, &mut cursor, &mut undo);
        assert!(ctx.undo());
    }
    assert_eq!(text, "Line 1\nLine 2\nLine 3");
}

#[test]
fn context_edges() {
    let c = coord("1.1.1/1.1.1/1.1.1");
    let mut text = "abc".to_string();
    let mut cursor = ScrollCursor::new();
    let mut undo = UndoEngine::new();
    {
        let mut ctx = EditContext::new(c, &mut text, &mut cursor, &mut undo);
        ctx.delete_backward(1);
        ctx.delete_forward(2);
        ctx.insert_newline();
        ctx.replace_selection("zzz");
    }
    assert_eq!(text, "\nc");
    assert_eq!(cursor.position(), Position::new(1, 0));
    assert_eq!(undo.total_edits(), 2);
    cursor.move_to(Position::new(1, 0));
    cursor.select_to(Position::new(1, 1));
    {
        let mut ctx = EditContext::new(c, &mut text, &mut cursor, &mut undo);
        ctx.replace_selection("XY");
        ctx.delete_forward(1);
    }
    assert_eq!(text, "\nXY");
    assert_eq!(cursor.position(), Position::new(1, 2));
}

#[test]
fn vim_insert_text() {
    let mut mode = VimMode::new();
    let mut text = String::new();
    let mut cursor = ScrollCursor::new();
    let mut undo = UndoEngine::new();
    let _r = press(&mut mode, EditKey::char('i'), &mut text, &mut cursor, &mut undo);
    assert_eq!(mode.name(), "INSERT");
    for c in "Hello".chars() {
        press(&mut mode, EditKey::char(c), &mut text, &mut cursor, &mut undo);
    }
    assert_eq!(text, "Hello");
    press(&mut mode, EditKey::special(EditKeyCode::Escape), &mut text, &mut cursor, &mut undo);
    assert_eq!(mode.name(), "NORMAL");
}

#[test]
fn vim_dd_deletes_line() {
    let mut mode = VimMode::new();
    let mut text = "Line 1\nLine 2\nLine 3".to_string();
    let mut cursor = ScrollCursor::new();
    let mut undo = UndoEngine::new();
    cursor.move_down(&text, 1);
    press(&mut mode, EditKey::char('d'), &mut text, &mut cursor, &mut undo);
    press(&mut mode, EditKey::char('d'), &mut text, &mut cursor, &mut undo);
    assert_eq!(text, "Line 1\nLine 3");
    press(&mut mode, EditKey::char('u'), &mut text, &mut cursor, &mut undo);
    assert_eq!(text, "Line 1\nLine 2\nLine 3");
}

#[test]
fn vim_count_movement() {
    let mut mode = VimMode::new();
    let mut text = "Hello World Foo Bar".to_string();
    let mut cursor = ScrollCursor::new();
    let mut undo = UndoEngine::new();
    press(&mut mode, EditKey::char('3'), &mut text, &mut cursor, &mut undo);
    press(&mut mode, EditKey::char('l'), &mut text, &mut cursor, &mut undo);
    assert_eq!(cursor.position(), Position::new(0, 3));
}

#[test]
fn vim_visual_delete() {
    let mut mode = VimMode::new();
    let mut text = "Hello World".to_string();
    let mut cursor = ScrollCursor::new();
    let mut undo = UndoEngine::new();
    for _ in 0..5 {
        press(&mut mode, EditKey::char('l'), &mut text, &mut cursor, &mut undo);
    }
    press(&mut mode, EditKey::char('v'), &mut text, &mut cursor, &mut undo);
    for _ in 0..5 {
        press(&mut mode, EditKey::char('l'), &mut text, &mut cursor, &mut undo);
    }
    press(&mut mode, EditKey::char('d'), &mut text, &mut cursor, &mut undo);
    assert_eq!(text, "Hellod");
}

#[test]
#[allow(non_snake_case)]
fn vim_gg_and_G() {
    let mut mode = VimMode::new();
    let mut text = "Line 1\nLine 2\nLine 3\nLine 4".to_string();
    let mut cursor = ScrollCursor::new();
    let mut undo = UndoEngine::new();
    press(&mut mode, EditKey::char('G'), &mut text, &mut cursor, &mut undo);
    assert_eq!(cursor.position().line, 3);
    press(&mut mode, EditKey::char('g'), &mut text, &mut cursor, &mut undo);
    press(&mut mode, EditKey::char('g'), &mut text, &mut cursor, &mut undo);
    assert_eq!(cursor.position().line, 0);
    press(&mut mode, EditKey::char('3'), &mut text, &mut cursor, &mut undo);
    press(&mut mode, EditKey::char('G'), &mut text, &mut cursor, &mut undo);
    assert_eq!(cursor.position().line, 2);
}

#[test]
fn vim_o_open_below() {
    let mut mode = VimMode::new();
    let mut text = "Line 1\nLine 2".to_string();
    let mut cursor = ScrollCursor::new();
    let mut undo = UndoEngine::new();
    press(&mut mode, EditKey::char('o'), &mut text, &mut cursor, &mut undo);
    assert_eq!(mode.name(), "INSERT");
    assert_eq!(text, "Line 1\n\nLine 2");
    assert_eq!(cursor.position().line, 1);
}

#[test]
fn vim_results_and_styles() {
    let mut mode = VimMode::new();
    let mut text = "abc".to_string();
    let mut cursor = ScrollCursor::new();
    let mut undo = UndoEngine::new();
    assert_eq!(mode.cursor_style(), CursorStyle::Block);
    assert_eq!(press(&mut mode, EditKey::char('u'), &mut text, &mut cursor, &mut undo), EditResult::Status("Already at oldest change".to_string()));
    assert_eq!(press(&mut mode, EditKey::ctrl('r'), &mut text, &mut cursor, &mut undo), EditResult::Status("Already at newest change".to_string()));
    assert_eq!(press(&mut mode, EditKey::char('i'), &mut text, &mut cursor, &mut undo), EditResult::Status("-- INSERT --".to_string()));
    assert_eq!(mode.cursor_style(), CursorStyle::Line);
    assert_eq!(mode.status_hint(), "Esc:normal");
    assert_eq!(press(&mut mode, EditKey::special(EditKeyCode::Tab), &mut text, &mut cursor, &mut undo), EditResult::TextChanged);
    assert_eq!(text, "    abc");
    press(&mut mode, EditKey::special(EditKeyCode::Escape), &mut text, &mut cursor, &mut undo);
    assert_eq!(cursor.position(), Position::new(0, 3));
    assert_eq!(press(&mut mode, EditKey::special(EditKeyCode::Escape), &mut text, &mut cursor, &mut undo), EditResult::ExitEdit);
    assert!(mode.transition().is_none());
}

#[test]
fn vim_command_mode() {
    let mut mode = VimMode::new();
    let mut text = "abc".to_string();
    let mut cursor = ScrollCursor::new();
    let mut undo = UndoEngine::new();
    assert_eq!(press(&mut mode, EditKey::char(':'), &mut text, &mut cursor, &mut undo), EditResult::Status(":".to_string()));
    assert_eq!(mode.name(), "COMMAND");
    press(&mut mode, EditKey::char('q'), &mut text, &mut cursor, &mut undo);
    assert_eq!(press(&mut mode, EditKey::special(EditKeyCode::Enter), &mut text, &mut cursor, &mut undo), EditResult::ExitEdit);
    assert_eq!(mode.name(), "NORMAL");
}

#[test]
fn vim_x_deletes_under_cursor() {
    let mut mode = VimMode::new();
    let mut text = "abcdef".to_string();
    let mut cursor = ScrollCursor::new();
    let mut undo = UndoEngine::new();
    press(&mut mode, EditKey::char('2'), &mut text, &mut cursor, &mut undo);
    assert_eq!(press(&mut mode, EditKey::char('x'), &mut text, &mut cursor, &mut undo), EditResult::TextChanged);
    assert_eq!(text, "cdef");
    assert_eq!(press(&mut mode, EditKey::char('u'), &mut text, &mut cursor, &mut undo), EditResult::TextChanged);
    assert_eq!(text, "abcdef");
}

#[test]
fn offsets_survive_positions() {
    let text = "héllo\nwörld\n\nend";
    let bytes = text.as_bytes();
    for o in 0..=bytes.len() {
        if text.is_char_boundary(o) {
            assert_eq!(Position::from_offset(text, o).to_offset(text), o);
        }
    }
}

#[test]
fn vim_visual_moves_by_characters() {
    let mut mode = VimMode::new();
    let mut text = "\u{e9}\u{e9}".to_string();
    let mut cursor = ScrollCursor::at(Position::new(0, 2));
    let mut undo = UndoEngine::new();
    press(&mut mode, EditKey::char('v'), &mut text, &mut cursor, &mut undo);
    assert_eq!(press(&mut mode, EditKey::char('h'), &mut text, &mut cursor, &mut undo), EditResult::CursorMoved);
    assert_eq!(cursor.selection.head, Position::new(0, 1));
    assert_eq!(cursor.selection.anchor, Position::new(0, 2));
    press(&mut mode, EditKey::char('l'), &mut text, &mut cursor, &mut undo);
    assert_eq!(cursor.selection.head, Position::new(0, 2));
}
