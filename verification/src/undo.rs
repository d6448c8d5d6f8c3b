//! Undo and redo, with the edit history stored as a phext.
//!
//! Each edit is an [`EditOp`] on the bytes of one scroll. Every scroll has
//! its own undo/redo stack. The history serializes to a "work" phext in
//! which each edit is a scroll: its coordinate keeps the target's Z and Y
//! arms and puts the edit's sequence number in the chapter.
use vstd::prelude::*;
use vstd::utf8::{encode_utf8, is_char_boundary, valid_utf8};

use crate::coordinate::{base_coordinate, coord_lt, decimal, default_coordinate, Coordinate, XCoordinate};
use crate::mmap::{emit_steps, serialize};
use crate::index::{coords_of, index_entries, lemma_lookup_span_bounds, lookup, LatticeIndex};
use crate::cursor::{position_text, Position};
use crate::text::{
    all_ascii, append_ascii, append_decimal, append_lit, append_str, append_valid, bytes_eq,
    find_bytes, find_from, has_prefix, occurs_at, lemma_find_from_some, lemma_lines_bounded,
    lemma_valid_range, line_spans, lines_of, parse_usize, parse_usize_spec, starts_with,
    push_bytes, str_from_utf8, string_from_valid, string_of_bytes,
};
use crate::text::slice_range;

verus! {

/// An edit that can be undone and redone. Offsets are byte offsets.
#[derive(Debug)]
pub enum EditOp {
    /// Insert text at an offset.
    Insert { offset: usize, text: String },
    /// Delete text at an offset (the deleted text is kept for undo).
    Delete { offset: usize, deleted: String },
    /// Replace the text at an offset.
    Replace { offset: usize, old_text: String, new_text: String },
}

/// An edit with its texts as UTF-8 bytes.
pub enum EditOpView {
    Insert { offset: usize, text: Seq<u8> },
    Delete { offset: usize, deleted: Seq<u8> },
    Replace { offset: usize, old_text: Seq<u8>, new_text: Seq<u8> },
}

impl View for EditOp {
    type V = EditOpView;

    open spec fn view(&self) -> EditOpView {
        match self {
            EditOp::Insert { offset, text } => EditOpView::Insert { offset: *offset, text: encode_utf8(text@) },
            EditOp::Delete { offset, deleted } => EditOpView::Delete {
                offset: *offset,
                deleted: encode_utf8(deleted@),
            },
            EditOp::Replace { offset, old_text, new_text } => EditOpView::Replace {
                offset: *offset,
                old_text: encode_utf8(old_text@),
                new_text: encode_utf8(new_text@),
            },
        }
    }
}

impl Clone for EditOp {
    fn clone(&self) -> (r: EditOp)
        ensures
            r@ == self@,
    {
        match self {
            EditOp::Insert { offset, text } => EditOp::Insert { offset: *offset, text: text.clone() },
            EditOp::Delete { offset, deleted } => EditOp::Delete { offset: *offset, deleted: deleted.clone() },
            EditOp::Replace { offset, old_text, new_text } => EditOp::Replace {
                offset: *offset,
                old_text: old_text.clone(),
                new_text: new_text.clone(),
            },
        }
    }
}

/// `o` clamped to `n`.
pub open spec fn clamp_to(o: usize, n: nat) -> nat {
    if o <= n {
        o as nat
    } else {
        n
    }
}

/// The byte range an edit removes from text `t` (clamped to the text).
pub open spec fn edit_range(op: EditOpView, t: Seq<u8>) -> (nat, nat) {
    match op {
        EditOpView::Insert { offset, .. } => (clamp_to(offset, t.len()), clamp_to(offset, t.len())),
        EditOpView::Delete { offset, deleted } => {
            let o = clamp_to(offset, t.len());
            (o, if o + deleted.len() <= t.len() { o + deleted.len() } else { t.len() })
        },
        EditOpView::Replace { offset, old_text, .. } => {
            let o = clamp_to(offset, t.len());
            (o, if o + old_text.len() <= t.len() { o + old_text.len() } else { t.len() })
        },
    }
}

/// The bytes an edit puts in place of its range.
pub open spec fn edit_insertion(op: EditOpView) -> Seq<u8> {
    match op {
        EditOpView::Insert { text, .. } => text,
        EditOpView::Delete { .. } => seq![],
        EditOpView::Replace { new_text, .. } => new_text,
    }
}

/// The length of text an edit removes, as it records it.
pub open spec fn edit_removed_len(op: EditOpView) -> nat {
    match op {
        EditOpView::Insert { .. } => 0,
        EditOpView::Delete { deleted, .. } => deleted.len(),
        EditOpView::Replace { old_text, .. } => old_text.len(),
    }
}

/// The text after applying `op` to text `t`.
pub open spec fn apply_spec(op: EditOpView, t: Seq<u8>) -> Seq<u8> {
    let (o, e) = edit_range(op, t);
    t.take(o as int) + edit_insertion(op) + t.skip(e as int)
}

/// Applying `op` to `t` slices the text at character boundaries (the
/// text before the edit is cut at both ends of the edit range) and the end offset
/// fits in a `usize`.
pub open spec fn can_apply(op: EditOpView, t: Seq<u8>) -> bool {
    let (o, e) = edit_range(op, t);
    &&& valid_utf8(t)
    &&& is_char_boundary(t, o as int)
    &&& is_char_boundary(t, e as int)
    &&& o + edit_removed_len(op) <= usize::MAX
}

/// The inverse edit.
pub open spec fn inverse_spec(op: EditOpView) -> EditOpView {
    match op {
        EditOpView::Insert { offset, text } => EditOpView::Delete { offset, deleted: text },
        EditOpView::Delete { offset, deleted } => EditOpView::Insert { offset, text: deleted },
        EditOpView::Replace { offset, old_text, new_text } => EditOpView::Replace {
            offset,
            old_text: new_text,
            new_text: old_text,
        },
    }
}

/// `op:`
pub open spec fn op_tag() -> Seq<u8> {
    seq![111u8, 112, 58]
}

/// `offset:`
pub open spec fn offset_tag() -> Seq<u8> {
    seq![111u8, 102, 102, 115, 101, 116, 58]
}

/// `len:`
pub open spec fn len_tag() -> Seq<u8> {
    seq![108u8, 101, 110, 58]
}

/// `cursor:`
pub open spec fn cursor_tag() -> Seq<u8> {
    seq![99u8, 117, 114, 115, 111, 114, 58]
}

/// `---`, the line between the header and the content.
pub open spec fn rule_line() -> Seq<u8> {
    seq![45u8, 45, 45]
}

/// `\n===\n`, between the old and the new text of a replacement.
pub open spec fn replace_separator() -> Seq<u8> {
    seq![10u8, 61, 61, 61, 10]
}

/// `insert`
pub open spec fn insert_name() -> Seq<u8> {
    seq![105u8, 110, 115, 101, 114, 116]
}

/// `delete`
pub open spec fn delete_name() -> Seq<u8> {
    seq![100u8, 101, 108, 101, 116, 101]
}

/// `replace`
pub open spec fn replace_name() -> Seq<u8> {
    seq![114u8, 101, 112, 108, 97, 99, 101]
}

/// The operation name an edit is recorded under.
pub open spec fn edit_name(op: EditOpView) -> Seq<u8> {
    match op {
        EditOpView::Insert { .. } => insert_name(),
        EditOpView::Delete { .. } => delete_name(),
        EditOpView::Replace { .. } => replace_name(),
    }
}

/// The offset an edit records.
pub open spec fn edit_offset(op: EditOpView) -> usize {
    match op {
        EditOpView::Insert { offset, .. } => offset,
        EditOpView::Delete { offset, .. } => offset,
        EditOpView::Replace { offset, .. } => offset,
    }
}

/// The length an edit records: that of its text, of the deleted text, or
/// of the replaced text.
pub open spec fn edit_recorded_len(op: EditOpView) -> nat {
    match op {
        EditOpView::Insert { text, .. } => text.len(),
        EditOpView::Delete { deleted, .. } => deleted.len(),
        EditOpView::Replace { old_text, .. } => old_text.len(),
    }
}

/// The content part of a record: the text, or the old and the new text
/// around the replacement separator.
pub open spec fn edit_body(op: EditOpView) -> Seq<u8> {
    match op {
        EditOpView::Insert { text, .. } => text,
        EditOpView::Delete { deleted, .. } => deleted,
        EditOpView::Replace { old_text, new_text, .. } => old_text + replace_separator() + new_text,
    }
}

/// A header line: a tag, a decimal number and a line feed.
pub open spec fn field_line(tag: Seq<u8>, v: nat) -> Seq<u8> {
    tag + decimal(v) + seq![10u8]
}

/// The cursor line: `cursor:`, the position before, `>`, the position
/// after, and a line feed.
pub open spec fn cursor_line(before: Position, after: Position) -> Seq<u8> {
    cursor_tag() + position_text(before) + seq![62u8] + position_text(after) + seq![10u8]
}

/// The header lines of an edit record: `op:NAME`, `offset:N`, `len:N`,
/// `cursor:L:C>L:C` and `---`, each ended by a line feed.
pub open spec fn record_header(op: EditOpView, before: Position, after: Position) -> Seq<u8> {
    (op_tag() + edit_name(op) + seq![10u8]) + field_line(offset_tag(), edit_offset(op) as nat)
        + field_line(len_tag(), edit_recorded_len(op)) + cursor_line(before, after) + (rule_line()
        + seq![10u8])
}

/// The text record of an edit with the cursor before and after it: the
/// header lines, then the content.
pub open spec fn scroll_record(op: EditOpView, before: Position, after: Position) -> Seq<u8> {
    record_header(op, before, after) + edit_body(op)
}

/// The bytes of line `k` of `b`.
pub open spec fn line_bytes(b: Seq<u8>, k: int) -> Seq<u8> {
    b.subrange(lines_of(b)[k].0 as int, lines_of(b)[k].1 as int)
}

/// One less, stopping at zero.
pub open spec fn minus_one(v: usize) -> usize {
    if v > 0 {
        (v - 1) as usize
    } else {
        0
    }
}

/// What a `LINE:COL` text (both counted from 1) gives: the zero-based
/// position, or nothing when it has no `:` or a side is no number.
pub open spec fn parse_position_spec(s: Seq<u8>) -> Option<Position> {
    match find_from(s, seq![58u8], 0) {
        None => None,
        Some(i) => match (parse_usize_spec(s.take(i as int)), parse_usize_spec(s.skip((i + 1) as int))) {
            (Some(l), Some(c)) => Some(Position { line: minus_one(l), col: minus_one(c) }),
            _ => None,
        },
    }
}

/// The content of a record: every byte after the line feed that ends the
/// fifth line (nothing when no line follows it).
pub open spec fn record_body(b: Seq<u8>) -> Seq<u8> {
    if lines_of(b).len() > 5 {
        b.skip(lines_of(b)[5].0 as int)
    } else {
        seq![]
    }
}

/// What reading a record gives: the edit and the cursor before and after
/// it, or nothing when a header line is missing or malformed.
pub open spec fn from_scroll_spec(b: Seq<u8>) -> Option<(EditOpView, Position, Position)> {
    let n = lines_of(b).len();
    if n < 5 {
        None
    } else {
        let l0 = line_bytes(b, 0);
        let l1 = line_bytes(b, 1);
        let l3 = line_bytes(b, 3);
        let c = l3.skip(7);
        if !has_prefix(l0, op_tag()) || !has_prefix(l1, offset_tag()) || !has_prefix(l3, cursor_tag())
            || line_bytes(b, 4) != rule_line() {
            None
        } else {
            match (parse_usize_spec(l1.skip(7)), find_from(c, seq![62u8], 0)) {
                (Some(offset), Some(g)) => match (
                    parse_position_spec(c.take(g as int)),
                    parse_position_spec(c.skip((g + 1) as int)),
                ) {
                    (Some(pb), Some(pa)) => {
                        let rest = record_body(b);
                        let name = l0.skip(3);
                        if name == insert_name() {
                            Some((EditOpView::Insert { offset, text: rest }, pb, pa))
                        } else if name == delete_name() {
                            Some((EditOpView::Delete { offset, deleted: rest }, pb, pa))
                        } else if name == replace_name() {
                            match find_from(rest, replace_separator(), 0) {
                                Some(j) => Some(
                                    (
                                        EditOpView::Replace {
                                            offset,
                                            old_text: rest.take(j as int),
                                            new_text: rest.skip((j + 5) as int),
                                        },
                                        pb,
                                        pa,
                                    ),
                                ),
                                None => None,
                            }
                        } else {
                            None
                        }
                    },
                    _ => None,
                },
                _ => None,
            }
        }
    }
}

/// Appends a header line: a tag, a decimal number and a line feed.
fn append_field(out: &mut Vec<u8>, tag: &[u8], v: usize)
    requires
        valid_utf8(old(out)@),
        all_ascii(tag@),
    ensures
        final(out)@ == old(out)@ + field_line(tag@, v as nat),
        valid_utf8(final(out)@),
{
    let ghost start = out@;
    append_lit(out, tag);
    append_decimal(out, v);
    append_ascii(out, 10);
    assert(out@ =~= start + field_line(tag@, v as nat));
}

/// Appends the cursor line of a record.
fn append_cursor_line(out: &mut Vec<u8>, before: Position, after: Position)
    requires
        valid_utf8(old(out)@),
        before.line < usize::MAX,
        before.col < usize::MAX,
        after.line < usize::MAX,
        after.col < usize::MAX,
    ensures
        final(out)@ == old(out)@ + cursor_line(before, after),
        valid_utf8(final(out)@),
{
    let ghost start = out@;
    append_lit(out, &[99u8, 117, 114, 115, 111, 114, 58]);
    let b = before.display();
    append_str(out, b.as_str());
    append_ascii(out, 62);
    let a = after.display();
    append_str(out, a.as_str());
    append_ascii(out, 10);
    assert(out@ =~= start + cursor_line(before, after));
}


/// Reads a `LINE:COL` position.
fn parse_position(s: &[u8]) -> (r: Option<Position>)
    ensures
        r == parse_position_spec(s@),
{
    let colon = [58u8];
    assert(colon@ =~= seq![58u8]);
    match find_bytes(s, &colon, 0) {
        None => None,
        Some(i) => {
            proof {
                lemma_find_from_some(s@, seq![58u8], 0);
                assert(occurs_at(s@, seq![58u8], i as int));
                assert(seq![58u8].len() == 1);
                assert(s@.subrange(0, i as int) =~= s@.take(i as int));
                assert(s@.subrange(i + 1, s@.len() as int) =~= s@.skip(i + 1));
            }
            let l = parse_usize(s, 0, i);
            let n = s.len();
            assert(i < n);
            let c = parse_usize(s, i + 1, n);
            match (l, c) {
                (Some(l), Some(c)) => Some(
                    Position::new(
                        if l > 0 {
                            l - 1
                        } else {
                            0
                        },
                        if c > 0 {
                            c - 1
                        } else {
                            0
                        },
                    ),
                ),
                _ => None,
            }
        },
    }
}

impl EditOp {
    /// Applies this edit to `text`.
    pub fn apply(&self, text: &str) -> (r: String)
        requires
            can_apply(self@, encode_utf8(text@)),
        ensures
            encode_utf8(r@) == apply_spec(self@, encode_utf8(text@)),
    {
        let b = text.as_bytes();
        let len = b.len();
        let (offset, removed, insertion): (usize, usize, &str) = match self {
            EditOp::Insert { offset, text } => (*offset, 0, text.as_str()),
            EditOp::Delete { offset, deleted } => (*offset, deleted.as_str().len(), ""),
            EditOp::Replace { offset, old_text, new_text } => (
                *offset,
                old_text.as_str().len(),
                new_text.as_str(),
            ),
        };
        proof {
            assert(encode_utf8(""@) =~= Seq::<u8>::empty()) by {
                reveal_strlit("");
            }
        }
        let o = if offset < len {
            offset
        } else {
            len
        };
        let e = if o + removed < len {
            o + removed
        } else {
            len
        };
        let ghost t = b@;
        proof {
            vstd::utf8::valid_utf8_split(t, o as int);
            vstd::utf8::valid_utf8_split(t, e as int);
            assert(t.take(o as int) =~= t.subrange(0, o as int));
            assert(t.skip(e as int) =~= t.subrange(e as int, t.len() as int));
        }
        let mut out: Vec<u8> = Vec::new();
        append_valid(&mut out, slice_range(b, 0, o));
        append_str(&mut out, insertion);
        append_valid(&mut out, slice_range(b, e, len));
        assert(out@ =~= apply_spec(self@, encode_utf8(text@)));
        string_of_bytes(out)
    }

    /// The text record of this edit, with the cursor before and after it.
    pub fn to_scroll(&self, cursor_before: Position, cursor_after: Position) -> (r: String)
        requires
            cursor_before.line < usize::MAX,
            cursor_before.col < usize::MAX,
            cursor_after.line < usize::MAX,
            cursor_after.col < usize::MAX,
        ensures
            encode_utf8(r@) == scroll_record(self@, cursor_before, cursor_after),
    {
        let mut out: Vec<u8> = Vec::new();
        self.append_header(&mut out, cursor_before, cursor_after);
        match self {
            EditOp::Insert { text, .. } => append_str(&mut out, text.as_str()),
            EditOp::Delete { deleted, .. } => append_str(&mut out, deleted.as_str()),
            EditOp::Replace { old_text, new_text, .. } => {
                append_str(&mut out, old_text.as_str());
                append_lit(&mut out, &[10u8, 61, 61, 61, 10]);
                append_str(&mut out, new_text.as_str());
            },
        }
        assert(out@ =~= record_header(self@, cursor_before, cursor_after) + edit_body(self@));
        string_of_bytes(out)
    }

    /// Appends the name this edit is recorded under.
    fn append_name(&self, out: &mut Vec<u8>)
        requires
            valid_utf8(old(out)@),
        ensures
            final(out)@ == old(out)@ + edit_name(self@),
            valid_utf8(final(out)@),
    {
        match self {
            EditOp::Insert { .. } => append_lit(out, &[105u8, 110, 115, 101, 114, 116]),
            EditOp::Delete { .. } => append_lit(out, &[100u8, 101, 108, 101, 116, 101]),
            EditOp::Replace { .. } => append_lit(out, &[114u8, 101, 112, 108, 97, 99, 101]),
        }
    }

    /// The offset and the length this edit records.
    fn recorded_fields(&self) -> (r: (usize, usize))
        ensures
            r.0 == edit_offset(self@),
            r.1 == edit_recorded_len(self@),
    {
        match self {
            EditOp::Insert { offset, text } => (*offset, text.as_str().as_bytes().len()),
            EditOp::Delete { offset, deleted } => (*offset, deleted.as_str().as_bytes().len()),
            EditOp::Replace { offset, old_text, .. } => (*offset, old_text.as_str().as_bytes().len()),
        }
    }


    /// Appends the header lines of this edit's record.
    fn append_header(&self, out: &mut Vec<u8>, cursor_before: Position, cursor_after: Position)
        requires
            valid_utf8(old(out)@),
            cursor_before.line < usize::MAX,
            cursor_before.col < usize::MAX,
            cursor_after.line < usize::MAX,
            cursor_after.col < usize::MAX,
        ensures
            final(out)@ == old(out)@ + record_header(self@, cursor_before, cursor_after),
            valid_utf8(final(out)@),
    {
        let ghost start = out@;
        append_lit(out, &[111u8, 112, 58]);
        self.append_name(out);
        append_ascii(out, 10);
        let ghost s1 = out@;
        assert(s1 =~= start + (op_tag() + edit_name(self@) + seq![10u8]));
        let (offset, len) = self.recorded_fields();
        append_field(out, &[111u8, 102, 102, 115, 101, 116, 58], offset);
        append_field(out, &[108u8, 101, 110, 58], len);
        append_cursor_line(out, cursor_before, cursor_after);
        let ghost s4 = out@;
        append_lit(out, &[45u8, 45, 45]);
        append_ascii(out, 10);
        assert(out@ =~= s4 + (rule_line() + seq![10u8]));
        assert(out@ =~= start + record_header(self@, cursor_before, cursor_after));
    }

    /// Reads an edit record back: the edit and the cursor before and after
    /// it, or `None` when the record is malformed.
    #[verifier::rlimit(80)]
    pub fn from_scroll(scroll: &str) -> (r: Option<(EditOp, Position, Position)>)
        ensures
            match r {
                None => from_scroll_spec(encode_utf8(scroll@)) is None,
                Some((op, pb, pa)) => from_scroll_spec(encode_utf8(scroll@)) == Some((op@, pb, pa)),
            },
    {
        let b = scroll.as_bytes();
        let ghost bs = b@;
        proof {
            vstd::utf8::encode_utf8_valid_utf8(scroll@);
            lemma_lines_bounded(bs);
        }
        let spans = line_spans(b);
        if spans.len() < 5 {
            return None;
        }
        let l0 = slice_range(b, spans[0].0, spans[0].1);
        let l1 = slice_range(b, spans[1].0, spans[1].1);
        let l3 = slice_range(b, spans[3].0, spans[3].1);
        let l4 = slice_range(b, spans[4].0, spans[4].1);
        proof {
            assert(l0@ == line_bytes(bs, 0));
            assert(l1@ == line_bytes(bs, 1));
            assert(l3@ == line_bytes(bs, 3));
            assert(l4@ == line_bytes(bs, 4));
            assert(l0@.subrange(0, l0@.len() as int) =~= l0@);
            assert(l1@.subrange(0, l1@.len() as int) =~= l1@);
            assert(l3@.subrange(0, l3@.len() as int) =~= l3@);
        }
        let rule = [45u8, 45, 45];
        if !starts_with(l0, 0, l0.len(), &[111u8, 112, 58]) || !starts_with(
            l1,
            0,
            l1.len(),
            &[111u8, 102, 102, 115, 101, 116, 58],
        ) || !starts_with(l3, 0, l3.len(), &[99u8, 117, 114, 115, 111, 114, 58]) || !bytes_eq(
            l4,
            &rule,
        ) {
            assert(rule@ =~= rule_line());
            return None;
        }
        assert(rule@ =~= rule_line());
        proof {
            assert(l1@.subrange(7, l1@.len() as int) =~= l1@.skip(7));
        }
        let offset = match parse_usize(l1, 7, l1.len()) {
            Some(v) => v,
            None => {
                return None;
            },
        };
        let c = slice_range(l3, 7, l3.len());
        assert(c@ =~= l3@.skip(7));
        let gt = [62u8];
        assert(gt@ =~= seq![62u8]);
        let g = match find_bytes(c, &gt, 0) {
            Some(g) => g,
            None => {
                return None;
            },
        };
        proof {
            lemma_find_from_some(c@, seq![62u8], 0);
        }
        let pb_bytes = slice_range(c, 0, g);
        let pa_bytes = slice_range(c, g + 1, c.len());
        assert(pb_bytes@ =~= c@.take(g as int));
        assert(pa_bytes@ =~= c@.skip(g + 1));
        let pb = match parse_position(pb_bytes) {
            Some(p) => p,
            None => {
                return None;
            },
        };
        let pa = match parse_position(pa_bytes) {
            Some(p) => p,
            None => {
                return None;
            },
        };
        let n = spans.len();
        let rest: Vec<u8> = if n > 5 {
            let start = spans[5].0;
            proof {
                assert(crate::text::ascii_bounded(bs, lines_of(bs)[5].0 as int, lines_of(bs)[5].1 as int));
                lemma_valid_range(bs, start as int, bs.len() as int);
                assert(bs.subrange(start as int, bs.len() as int) =~= bs.skip(start as int));
            }
            vstd::slice::slice_to_vec(slice_range(b, start, b.len()))
        } else {
            Vec::new()
        };
        assert(rest@ =~= record_body(bs));
        let name = slice_range(l0, 3, l0.len());
        assert(name@ =~= l0@.skip(3));
        let ghost spec_rest = rest@;
        if bytes_eq(name, &[105u8, 110, 115, 101, 114, 116]) {
            let text = string_from_valid(rest.as_slice());
            Some((EditOp::Insert { offset, text }, pb, pa))
        } else if bytes_eq(name, &[100u8, 101, 108, 101, 116, 101]) {
            let deleted = string_from_valid(rest.as_slice());
            Some((EditOp::Delete { offset, deleted }, pb, pa))
        } else if bytes_eq(name, &[114u8, 101, 112, 108, 97, 99, 101]) {
            let sep = [10u8, 61, 61, 61, 10];
            assert(sep@ =~= replace_separator());
            match find_bytes(rest.as_slice(), &sep, 0) {
                None => None,
                Some(j) => {
                    proof {
                        lemma_find_from_some(spec_rest, replace_separator(), 0);
                        assert(spec_rest[j as int] == spec_rest.subrange(j as int, j + 5)[0]);
                        assert(spec_rest[j + 4] == spec_rest.subrange(j as int, j + 5)[4]);
                        lemma_valid_range(spec_rest, 0, j as int);
                        lemma_valid_range(spec_rest, j + 5, spec_rest.len() as int);
                    }
                    let rn = rest.len();
                    assert(j + 5 <= rn);
                    let old_bytes = slice_range(rest.as_slice(), 0, j);
                    let new_bytes = slice_range(rest.as_slice(), j + 5, rn);
                    assert(old_bytes@ =~= spec_rest.take(j as int));
                    assert(new_bytes@ =~= spec_rest.skip(j + 5));
                    let old_text = string_from_valid(old_bytes);
                    let new_text = string_from_valid(new_bytes);
                    Some((EditOp::Replace { offset, old_text, new_text }, pb, pa))
                },
            }
        } else {
            None
        }
    }

    /// The edit that undoes this one.
    pub fn inverse(&self) -> (r: EditOp)
        ensures
            r@ == inverse_spec(self@),
    {
        match self {
            EditOp::Insert { offset, text } => EditOp::Delete { offset: *offset, deleted: text.clone() },
            EditOp::Delete { offset, deleted } => EditOp::Insert { offset: *offset, text: deleted.clone() },
            EditOp::Replace { offset, old_text, new_text } => EditOp::Replace {
                offset: *offset,
                old_text: new_text.clone(),
                new_text: old_text.clone(),
            },
        }
    }
}

} // verus!

verus! {

/// One recorded edit.
#[derive(Debug, Clone)]
pub struct UndoRecord {
    /// The scroll the edit applies to.
    pub target: Coordinate,
    /// The edit.
    pub op: EditOp,
    /// The cursor before the edit.
    pub cursor_before: Position,
    /// The cursor after the edit.
    pub cursor_after: Position,
    /// The edit's sequence number among the edits of its scroll (from 1).
    pub sequence: usize,
}

/// A recorded edit, its texts as bytes.
pub struct RecordView {
    pub target: Coordinate,
    pub op: EditOpView,
    pub before: Position,
    pub after: Position,
    pub sequence: usize,
}

impl View for UndoRecord {
    type V = RecordView;

    open spec fn view(&self) -> RecordView {
        RecordView {
            target: self.target,
            op: self.op@,
            before: self.cursor_before,
            after: self.cursor_after,
            sequence: self.sequence,
        }
    }
}

/// The edits of one scroll and how many of them are in effect.
pub struct HistoryView {
    pub records: Seq<RecordView>,
    pub cursor: nat,
}

/// The undo state: the history of each edited scroll, in the order the
/// scrolls were first edited, and the number of edits recorded.
pub struct EngineView {
    pub stacks: Seq<(Coordinate, HistoryView)>,
    pub global: nat,
}

/// The undo/redo stack of one scroll.
struct ScrollHistory {
    records: Vec<UndoRecord>,
    cursor: usize,
}

impl View for ScrollHistory {
    type V = HistoryView;

    closed spec fn view(&self) -> HistoryView {
        HistoryView { records: self.records@.map_values(|r: UndoRecord| r@), cursor: self.cursor as nat }
    }
}

/// A history with nothing recorded.
pub open spec fn empty_history() -> HistoryView {
    HistoryView { records: seq![], cursor: 0 }
}

/// `h` after recording `r`: the undone edits are dropped and `r` follows.
pub open spec fn history_pushed(h: HistoryView, r: RecordView) -> HistoryView {
    HistoryView { records: h.records.take(h.cursor as int).push(r), cursor: h.cursor + 1 }
}

/// The index of the stack of scroll `c`, if it has one.
pub open spec fn find_stack(s: Seq<(Coordinate, HistoryView)>, c: Coordinate) -> Option<int>
    decreases s.len(),
{
    if s.len() == 0 {
        None
    } else if s.last().0 == c {
        Some(s.len() - 1)
    } else {
        find_stack(s.drop_last(), c)
    }
}

/// The history of scroll `c` (empty when it has none).
pub open spec fn history_of(v: EngineView, c: Coordinate) -> HistoryView {
    match find_stack(v.stacks, c) {
        Some(i) => v.stacks[i].1,
        None => empty_history(),
    }
}

/// The stacks with the history of `c` set to `h` (a new stack at the end
/// when `c` had none).
pub open spec fn with_history(v: EngineView, c: Coordinate, h: HistoryView) -> Seq<(Coordinate, HistoryView)> {
    match find_stack(v.stacks, c) {
        Some(i) => v.stacks.update(i, (c, h)),
        None => v.stacks.push((c, h)),
    }
}

/// The undo state is consistent: one stack per scroll, each cursor within
/// its records, and no stack longer than the count of recorded edits.
pub open spec fn engine_wf(v: EngineView) -> bool {
    &&& forall|i: int, j: int|
        0 <= i < j < v.stacks.len() ==> (#[trigger] v.stacks[i]).0 != (#[trigger] v.stacks[j]).0
    &&& forall|i: int|
        0 <= i < v.stacks.len() ==> (#[trigger] v.stacks[i]).1.cursor <= v.stacks[i].1.records.len()
            <= v.global
}

/// The state after recording an edit with the given sequence number.
pub open spec fn appended(
    v: EngineView,
    target: Coordinate,
    op: EditOpView,
    before: Position,
    after: Position,
    sequence: usize,
) -> EngineView {
    let r = RecordView { target, op, before, after, sequence };
    EngineView {
        stacks: with_history(v, target, history_pushed(history_of(v, target), r)),
        global: v.global + 1,
    }
}

/// The state after recording an edit: its sequence number is one more
/// than the number of edits the scroll has on record.
pub open spec fn recorded(
    v: EngineView,
    target: Coordinate,
    op: EditOpView,
    before: Position,
    after: Position,
) -> EngineView {
    appended(v, target, op, before, after, (history_of(v, target).records.len() + 1) as usize)
}

/// The state with the cursor of scroll `c` set to `k`.
pub open spec fn with_cursor(v: EngineView, c: Coordinate, k: nat) -> EngineView {
    EngineView {
        stacks: with_history(v, c, HistoryView { records: history_of(v, c).records, cursor: k }),
        global: v.global,
    }
}

/// The scrolls whose history has an edit in effect, in stack order.
pub open spec fn dirty_of(s: Seq<(Coordinate, HistoryView)>) -> Seq<Coordinate>
    decreases s.len(),
{
    if s.len() == 0 {
        seq![]
    } else if s.last().1.cursor > 0 {
        dirty_of(s.drop_last()).push(s.last().0)
    } else {
        dirty_of(s.drop_last())
    }
}

/// `find_stack` on a prefix.
proof fn lemma_find_stack_prefix(s: Seq<(Coordinate, HistoryView)>, c: Coordinate, j: int)
    requires
        0 < j <= s.len(),
    ensures
        s.take(j).drop_last() == s.take(j - 1),
        s.take(j).last() == s[j - 1],
        s.take(s.len() as int) == s,
{
    assert(s.take(j).drop_last() =~= s.take(j - 1));
    assert(s.take(s.len() as int) =~= s);
}

/// What `find_stack` finds is a stack of that scroll, and with unique
/// scrolls, a stack of that scroll is found.
pub proof fn lemma_find_stack(s: Seq<(Coordinate, HistoryView)>, c: Coordinate)
    ensures
        find_stack(s, c) matches Some(i) ==> 0 <= i < s.len() && s[i].0 == c,
        find_stack(s, c) is None ==> forall|k: int| 0 <= k < s.len() ==> (#[trigger] s[k]).0 != c,
    decreases s.len(),
{
    if s.len() > 0 && s.last().0 != c {
        lemma_find_stack(s.drop_last(), c);
        if find_stack(s, c) is None {
            assert forall|k: int| 0 <= k < s.len() implies (#[trigger] s[k]).0 != c by {
                if k < s.len() - 1 {
                    assert(s.drop_last()[k] == s[k]);
                }
            }
        }
    }
}

/// `dirty_of` on a prefix grows by the next stack when that stack has an
/// edit in effect.
proof fn lemma_dirty_step(s: Seq<(Coordinate, HistoryView)>, j: int)
    requires
        0 <= j < s.len(),
    ensures
        dirty_of(s.take(j + 1)) == if s[j].1.cursor > 0 {
            dirty_of(s.take(j)).push(s[j].0)
        } else {
            dirty_of(s.take(j))
        },
{
    assert(s.take(j + 1).drop_last() =~= s.take(j));
}

/// The coordinate in the work phext of edit number `sequence` of scroll
/// `source`: the source's Z and Y arms, and `sequence.1.1` as X arm.
pub open spec fn work_coordinate_spec(source: Coordinate, sequence: usize) -> Coordinate {
    Coordinate { z: source.z, y: source.y, x: XCoordinate { chapter: sequence, section: 1, scroll: 1 } }
}

/// The scroll a work coordinate belongs to: its Z and Y arms with X arm
/// `1.1.1`.
pub open spec fn source_coordinate_spec(work: Coordinate) -> Coordinate {
    Coordinate { z: work.z, y: work.y, x: XCoordinate { chapter: 1, section: 1, scroll: 1 } }
}

/// The work-phext entries of the records of scroll `target`, in record
/// order.
pub open spec fn stack_entries(target: Coordinate, records: Seq<RecordView>) -> Seq<(Coordinate, Seq<u8>)> {
    records.map_values(
        |r: RecordView| (work_coordinate_spec(target, r.sequence), scroll_record(r.op, r.before, r.after)),
    )
}

/// The work-phext entries of all stacks, stack after stack.
pub open spec fn work_entries(s: Seq<(Coordinate, HistoryView)>) -> Seq<(Coordinate, Seq<u8>)>
    decreases s.len(),
{
    if s.len() == 0 {
        seq![]
    } else {
        work_entries(s.drop_last()) + stack_entries(s.last().0, s.last().1.records)
    }
}

/// Where an entry at `c` goes in a sorted sequence: after every entry that
/// is not after it.
pub open spec fn insertion_point(s: Seq<(Coordinate, Seq<u8>)>, c: Coordinate) -> nat
    decreases s.len(),
{
    if s.len() == 0 {
        0
    } else if coord_lt(c, s.last().0) {
        insertion_point(s.drop_last(), c)
    } else {
        s.len()
    }
}

/// The entries stably sorted by coordinate.
pub open spec fn sort_entries(s: Seq<(Coordinate, Seq<u8>)>) -> Seq<(Coordinate, Seq<u8>)>
    decreases s.len(),
{
    if s.len() == 0 {
        s
    } else {
        let t = sort_entries(s.drop_last());
        t.insert(insertion_point(t, s.last().0) as int, s.last())
    }
}

/// Every recorded cursor can be printed (its line and column plus one fit
/// in a `usize`).
pub open spec fn cursors_printable(v: EngineView) -> bool {
    forall|i: int, k: int|
        0 <= i < v.stacks.len() && 0 <= k < v.stacks[i].1.records.len() ==> {
            let r = #[trigger] v.stacks[i].1.records[k];
            r.before.line < usize::MAX && r.before.col < usize::MAX && r.after.line < usize::MAX
                && r.after.col < usize::MAX
        }
}

/// The state after reading the scroll at work coordinate `c` of `bytes`:
/// a record is added when the scroll is a well-formed edit record (text
/// that is not valid UTF-8 counts as empty).
pub open spec fn load_step(bytes: Seq<u8>, v: EngineView, c: Coordinate) -> EngineView {
    match lookup(index_entries(bytes), c) {
        None => v,
        Some(sp) => {
            let sb = bytes.subrange(sp.start as int, sp.end as int);
            let text = if valid_utf8(sb) {
                sb
            } else {
                seq![]
            };
            match from_scroll_spec(text) {
                None => v,
                Some((op, b, a)) => appended(v, source_coordinate_spec(c), op, b, a, c.x.chapter),
            }
        },
    }
}

/// The state after reading the first `k` coordinates of the work phext
/// `bytes`.
pub open spec fn loaded(bytes: Seq<u8>, k: nat) -> EngineView
    decreases k,
{
    if k == 0 {
        EngineView { stacks: seq![], global: 0 }
    } else {
        load_step(bytes, loaded(bytes, (k - 1) as nat), coords_of(index_entries(bytes))[k - 1])
    }
}

/// Maps a source scroll and an edit's sequence number to its work
/// coordinate.
fn work_coordinate(source: &Coordinate, sequence: usize) -> (r: Coordinate)
    ensures
        r == work_coordinate_spec(*source, sequence),
{
    let mut c = *source;
    c.x.chapter = sequence;
    c.x.section = 1;
    c.x.scroll = 1;
    c
}

/// Recovers the source scroll of a work coordinate.
fn source_coordinate(work: &Coordinate) -> (r: Coordinate)
    ensures
        r == source_coordinate_spec(*work),
{
    let mut c = *work;
    c.x.chapter = 1;
    c.x.section = 1;
    c.x.scroll = 1;
    c
}

/// The view of an entry.
pub open spec fn entry_view(e: (Coordinate, String)) -> (Coordinate, Seq<u8>) {
    (e.0, encode_utf8(e.1@))
}

/// The views of a list of entries.
pub open spec fn entries_view(v: Seq<(Coordinate, String)>) -> Seq<(Coordinate, Seq<u8>)> {
    v.map_values(|e: (Coordinate, String)| entry_view(e))
}

/// Inserts an entry into a stably sorted list.
fn insert_entry(sorted: &mut Vec<(Coordinate, String)>, e: (Coordinate, String))
    ensures
        entries_view(final(sorted)@) == entries_view(old(sorted)@).insert(
            insertion_point(entries_view(old(sorted)@), e.0) as int,
            entry_view(e),
        ),
{
    let ghost s = entries_view(sorted@);
    let mut j = sorted.len();
    assert(s.take(j as int) =~= s);
    while j > 0 && e.0.precedes(&sorted[j - 1].0)
        invariant
            0 <= j <= sorted@.len(),
            s == entries_view(sorted@),
            insertion_point(s, e.0) == insertion_point(s.take(j as int), e.0),
        decreases j,
    {
        assert(s.take(j as int).drop_last() =~= s.take(j - 1));
        assert(s.take(j as int).last() == s[j - 1]);
        j = j - 1;
    }
    if j > 0 {
        assert(s.take(j as int).last() == s[j - 1]);
    }
    let ghost ev = entry_view(e);
    sorted.insert(j, e);
    assert(entries_view(sorted@) =~= s.insert(j as int, ev));
}

/// The work phext of a list of entries: each entry's content, preceded by
/// every delimiter that leads from the previous entry's coordinate (the
/// origin, for the first) to its own.
fn emit_entries(entries: &Vec<(Coordinate, String)>) -> (r: Vec<u8>)
    ensures
        r@ == serialize(entries_view(entries@)),
{
    let ghost s = entries_view(entries@);
    let mut bytes: Vec<u8> = Vec::new();
    let mut current = default_coordinate();
    let mut k: usize = 0;
    while k < entries.len()
        invariant
            0 <= k <= entries@.len(),
            s == entries_view(entries@),
            current == if k == 0 { base_coordinate() } else { s[k - 1].0 },
            bytes@ == serialize(s.take(k as int)),
        decreases entries@.len() - k,
    {
        let ghost t = s.take(k + 1);
        assert(t.drop_last() =~= s.take(k as int));
        assert(t.last() == s[k as int]);
        if k > 0 {
            assert(t[t.len() - 2] == s[k - 1]);
        }
        let target = entries[k].0;
        emit_steps(&mut bytes, &mut current, &target);
        push_bytes(&mut bytes, entries[k].1.as_str().as_bytes());
        current = target;
        assert(bytes@ =~= serialize(t));
        k = k + 1;
    }
    assert(s.take(k as int) =~= s);
    bytes
}

impl ScrollHistory {
    fn new() -> (r: ScrollHistory)
        ensures
            r@ == empty_history(),
    {
        let r = ScrollHistory { records: Vec::new(), cursor: 0 };
        assert(r@.records =~= Seq::<RecordView>::empty());
        r
    }

    /// Records an edit, dropping the undone ones.
    fn push(&mut self, record: UndoRecord)
        requires
            old(self).cursor <= old(self).records.len(),
        ensures
            final(self)@ == history_pushed(old(self)@, record@),
    {
        self.records.truncate(self.cursor);
        self.records.push(record);
        self.cursor = self.records.len();
        assert(self@.records =~= history_pushed(old(self)@, record@).records);
    }

    fn can_undo(&self) -> (r: bool)
        ensures
            r == (self@.cursor > 0),
    {
        self.cursor > 0
    }

    fn can_redo(&self) -> (r: bool)
        ensures
            r == (self@.cursor < self@.records.len()),
    {
        self.cursor < self.records.len()
    }

    fn depth(&self) -> (r: usize)
        ensures
            r == self@.cursor,
    {
        self.cursor
    }

    fn total(&self) -> (r: usize)
        ensures
            r == self@.records.len(),
    {
        self.records.len()
    }
}

/// The undo engine: one undo/redo stack per scroll, and a count of all
/// recorded edits.
pub struct UndoEngine {
    stacks: Vec<(Coordinate, ScrollHistory)>,
    global_sequence: usize,
}

impl View for UndoEngine {
    type V = EngineView;

    closed spec fn view(&self) -> EngineView {
        EngineView {
            stacks: self.stacks@.map_values(|p: (Coordinate, ScrollHistory)| (p.0, p.1@)),
            global: self.global_sequence as nat,
        }
    }
}

impl UndoEngine {
    /// The engine's state is consistent.
    pub open spec fn wf(&self) -> bool {
        engine_wf(self@)
    }

    /// An engine with nothing recorded.
    pub fn new() -> (r: UndoEngine)
        ensures
            r@ == (EngineView { stacks: seq![], global: 0 }),
            r.wf(),
    {
        let r = UndoEngine { stacks: Vec::new(), global_sequence: 0 };
        assert(r@.stacks =~= Seq::<(Coordinate, HistoryView)>::empty());
        r
    }

    /// The index of the stack of `target`.
    fn find(&self, target: &Coordinate) -> (r: Option<usize>)
        ensures
            match r {
                Some(i) => find_stack(self@.stacks, *target) == Some(i as int),
                None => find_stack(self@.stacks, *target) is None,
            },
    {
        let ghost s = self@.stacks;
        let mut j = self.stacks.len();
        proof {
            assert(s.take(j as int) =~= s);
        }
        while j > 0
            invariant
                0 <= j <= self.stacks@.len(),
                s == self@.stacks,
                s.len() == self.stacks@.len(),
                find_stack(s, *target) == find_stack(s.take(j as int), *target),
            decreases j,
        {
            proof {
                lemma_find_stack_prefix(s, *target, j as int);
            }
            if self.stacks[j - 1].0.same(target) {
                return Some(j - 1);
            }
            j = j - 1;
        }
        None
    }

    /// Records an edit on scroll `target` with the cursor before and after
    /// it. Any undone edits of that scroll are dropped.
    pub fn record(&mut self, target: Coordinate, op: EditOp, cursor_before: Position, cursor_after: Position)
        requires
            old(self).wf(),
            old(self)@.global < usize::MAX,
        ensures
            final(self).wf(),
            final(self)@ == recorded(old(self)@, target, op@, cursor_before, cursor_after),
    {
        proof {
            lemma_find_stack(self@.stacks, target);
        }
        let total = match self.find(&target) {
            Some(i) => self.stacks[i].1.total(),
            None => 0,
        };
        self.append_record(target, op, cursor_before, cursor_after, total + 1);
    }

    /// Records an edit with a given sequence number.
    fn append_record(
        &mut self,
        target: Coordinate,
        op: EditOp,
        cursor_before: Position,
        cursor_after: Position,
        sequence: usize,
    )
        requires
            old(self).wf(),
            old(self)@.global < usize::MAX,
        ensures
            final(self).wf(),
            final(self)@ == appended(old(self)@, target, op@, cursor_before, cursor_after, sequence),
    {
        let ghost v = self@;
        let ghost opv = op@;
        proof {
            lemma_find_stack(v.stacks, target);
        }
        self.global_sequence = self.global_sequence + 1;
        let i = match self.find(&target) {
            Some(i) => i,
            None => {
                self.stacks.push((target, ScrollHistory::new()));
                self.stacks.len() - 1
            },
        };
        let ghost h = history_of(v, target);
        assert(self.stacks@[i as int].1@ == h);
        let rec = UndoRecord { target, op, cursor_before, cursor_after, sequence };
        self.stacks[i].1.push(rec);
        proof {
            let nv = appended(v, target, opv, cursor_before, cursor_after, sequence);
            assert(self@.stacks =~= nv.stacks);
            assert forall|a: int, b: int|
                0 <= a < b < self@.stacks.len() implies (#[trigger] self@.stacks[a]).0 != (
                #[trigger] self@.stacks[b]).0 by {}
        }
    }

    /// Undoes the last edit in effect on scroll `target`: gives the edit
    /// that reverts it and the cursor to restore, or `None` when there is
    /// nothing to undo.
    pub fn undo(&mut self, target: &Coordinate) -> (r: Option<(EditOp, Position)>)
        requires
            old(self).wf(),
        ensures
            final(self).wf(),
            ({
                let h = history_of(old(self)@, *target);
                match r {
                    None => h.cursor == 0 && final(self)@ == old(self)@,
                    Some((op, p)) => h.cursor > 0 && op@ == inverse_spec(h.records[h.cursor - 1].op)
                        && p == h.records[h.cursor - 1].before && final(self)@ == with_cursor(
                        old(self)@,
                        *target,
                        (h.cursor - 1) as nat,
                    ),
                }
            }),
    {
        let ghost v = self@;
        proof {
            lemma_find_stack(v.stacks, *target);
        }
        let i = match self.find(target) {
            Some(i) => i,
            None => {
                return None;
            },
        };
        if !self.stacks[i].1.can_undo() {
            return None;
        }
        let k = self.stacks[i].1.cursor - 1;
        self.stacks[i].1.cursor = k;
        let rec = &self.stacks[i].1.records[k];
        let op = rec.op.inverse();
        let p = rec.cursor_before;
        proof {
            assert(self@.stacks =~= with_cursor(v, *target, k as nat).stacks);
        }
        Some((op, p))
    }

    /// Redoes the next undone edit on scroll `target`: gives the edit and
    /// the cursor after it, or `None` when there is nothing to redo.
    pub fn redo(&mut self, target: &Coordinate) -> (r: Option<(EditOp, Position)>)
        requires
            old(self).wf(),
        ensures
            final(self).wf(),
            ({
                let h = history_of(old(self)@, *target);
                match r {
                    None => h.cursor >= h.records.len() && final(self)@ == old(self)@,
                    Some((op, p)) => h.cursor < h.records.len() && op@ == h.records[h.cursor as int].op
                        && p == h.records[h.cursor as int].after && final(self)@ == with_cursor(
                        old(self)@,
                        *target,
                        h.cursor + 1,
                    ),
                }
            }),
    {
        let ghost v = self@;
        proof {
            lemma_find_stack(v.stacks, *target);
        }
        let i = match self.find(target) {
            Some(i) => i,
            None => {
                return None;
            },
        };
        if !self.stacks[i].1.can_redo() {
            return None;
        }
        let k = self.stacks[i].1.cursor;
        self.stacks[i].1.cursor = k + 1;
        let rec = &self.stacks[i].1.records[k];
        let op = rec.op.clone();
        let p = rec.cursor_after;
        proof {
            assert(self@.stacks =~= with_cursor(v, *target, (k + 1) as nat).stacks);
        }
        Some((op, p))
    }

    /// Whether scroll `target` has an edit to undo.
    pub fn can_undo(&self, target: &Coordinate) -> (r: bool)
        ensures
            r == (history_of(self@, *target).cursor > 0),
    {
        proof {
            lemma_find_stack(self@.stacks, *target);
        }
        match self.find(target) {
            Some(i) => self.stacks[i].1.can_undo(),
            None => false,
        }
    }

    /// Whether scroll `target` has an undone edit to redo.
    pub fn can_redo(&self, target: &Coordinate) -> (r: bool)
        ensures
            r == (history_of(self@, *target).cursor < history_of(self@, *target).records.len()),
    {
        proof {
            lemma_find_stack(self@.stacks, *target);
        }
        match self.find(target) {
            Some(i) => self.stacks[i].1.can_redo(),
            None => false,
        }
    }

    /// The number of edits in effect on scroll `target`.
    pub fn depth(&self, target: &Coordinate) -> (r: usize)
        ensures
            r == history_of(self@, *target).cursor,
    {
        proof {
            lemma_find_stack(self@.stacks, *target);
        }
        match self.find(target) {
            Some(i) => self.stacks[i].1.depth(),
            None => 0,
        }
    }

    /// The number of edits recorded over all scrolls.
    pub fn total_edits(&self) -> (r: usize)
        ensures
            r == self@.global,
    {
        self.global_sequence
    }

    /// The whole history as a work phext: each record becomes a scroll at
    /// its work coordinate, in coordinate order (records at one coordinate
    /// keep the order of their scrolls' first edits), reached by every
    /// delimiter that leads there.
    pub fn to_work_phext(&self) -> (r: Vec<u8>)
        requires
            cursors_printable(self@),
        ensures
            r@ == serialize(sort_entries(work_entries(self@.stacks))),
    {
        let ghost st = self@.stacks;
        let mut sorted: Vec<(Coordinate, String)> = Vec::new();
        let mut i: usize = 0;
        assert(st.take(0) =~= Seq::<(Coordinate, HistoryView)>::empty());
        assert(entries_view(sorted@) =~= Seq::<(Coordinate, Seq<u8>)>::empty());
        while i < self.stacks.len()
            invariant
                0 <= i <= self.stacks@.len(),
                st == self@.stacks,
                st.len() == self.stacks@.len(),
                cursors_printable(self@),
                entries_view(sorted@) == sort_entries(work_entries(st.take(i as int))),
            decreases self.stacks@.len() - i,
        {
            let target = &self.stacks[i].0;
            let records = &self.stacks[i].1.records;
            let ghost recs = st[i as int].1.records;
            let ghost base = work_entries(st.take(i as int));
            assert(recs == records@.map_values(|r: UndoRecord| r@));
            let mut k: usize = 0;
            assert(stack_entries(*target, recs.take(0)) =~= Seq::<(Coordinate, Seq<u8>)>::empty());
            assert(base + stack_entries(*target, recs.take(0)) =~= base);
            while k < records.len()
                invariant
                    0 <= k <= records@.len(),
                    i < st.len(),
                    st == self@.stacks,
                    recs == st[i as int].1.records,
                    recs == records@.map_values(|r: UndoRecord| r@),
                    *target == st[i as int].0,
                    cursors_printable(self@),
                    entries_view(sorted@) == sort_entries(
                        base + stack_entries(*target, recs.take(k as int)),
                    ),
                decreases records@.len() - k,
            {
                let r = &records[k];
                assert(recs[k as int] == r@);
                assert(st[i as int].1.records[k as int] == r@);
                let wc = work_coordinate(target, r.sequence);
                let scroll = r.op.to_scroll(r.cursor_before, r.cursor_after);
                let ghost prev = base + stack_entries(*target, recs.take(k as int));
                let ghost next = base + stack_entries(*target, recs.take(k + 1));
                let ghost ev = entry_view((wc, scroll));
                assert(next =~= prev.push(ev));
                assert(next.drop_last() =~= prev);
                insert_entry(&mut sorted, (wc, scroll));
                k = k + 1;
            }
            assert(recs.take(k as int) =~= recs);
            assert(st.take(i + 1).drop_last() =~= st.take(i as int));
            assert(st.take(i + 1).last() == st[i as int]);
            i = i + 1;
        }
        assert(st.take(i as int) =~= st);
        emit_entries(&sorted)
    }

    /// Reads a history back from a work phext: every scroll that is a
    /// well-formed edit record becomes a record of the scroll its
    /// coordinate belongs to, with the chapter as its sequence number.
    pub fn from_work_phext(bytes: &[u8], _target_index: &LatticeIndex) -> (r: UndoEngine)
        ensures
            r.wf(),
            r@ == loaded(bytes@, coords_of(index_entries(bytes@)).len()),
    {
        let work_index = LatticeIndex::build(bytes);
        let coords = work_index.coordinates();
        let mut engine = UndoEngine::new();
        let mut k: usize = 0;
        let blen = bytes.len();
        while k < coords.len()
            invariant
                0 <= k <= coords@.len(),
                blen == bytes@.len(),
                work_index@ == index_entries(bytes@),
                coords@ == coords_of(index_entries(bytes@)),
                engine.wf(),
                engine@ == loaded(bytes@, k as nat),
                engine@.global <= k,
            decreases coords@.len() - k,
        {
            let coord = coords[k];
            match work_index.get(&coord) {
                Some(span) => {
                    proof {
                        lemma_lookup_span_bounds(bytes@, coord);
                    }
                    let sb = slice_range(bytes, span.start, span.end);
                    let scroll: &str = match str_from_utf8(sb) {
                        Some(t) => {
                            proof {
                                vstd::utf8::decode_utf8_encode_utf8(sb@);
                            }
                            t
                        },
                        None => {
                            proof {
                                reveal_strlit("");
                            }
                            assert(encode_utf8(""@) =~= Seq::<u8>::empty());
                            ""
                        },
                    };
                    match EditOp::from_scroll(scroll) {
                        Some((op, b, a)) => {
                            let target = source_coordinate(&coord);
                            engine.append_record(target, op, b, a, coord.x.chapter);
                        },
                        None => {},
                    }
                },
                None => {},
            }
            k = k + 1;
        }
        engine
    }

    /// The scrolls with an edit in effect.
    pub fn dirty_scrolls(&self) -> (r: Vec<Coordinate>)
        ensures
            r@ == dirty_of(self@.stacks),
    {
        let ghost s = self@.stacks;
        let mut out: Vec<Coordinate> = Vec::new();
        let mut j: usize = 0;
        while j < self.stacks.len()
            invariant
                0 <= j <= self.stacks@.len(),
                s == self@.stacks,
                s.len() == self.stacks@.len(),
                out@ == dirty_of(s.take(j as int)),
            decreases self.stacks@.len() - j,
        {
            proof {
                lemma_dirty_step(s, j as int);
            }
            if self.stacks[j].1.depth() > 0 {
                out.push(self.stacks[j].0);
            }
            j = j + 1;
        }
        assert(s.take(j as int) =~= s);
        out
    }
}

} // verus!

verus! {

/// Whether `op` could have been made on text `t`: its offset lies within
/// the text and, for a deletion or replacement, the text it records as
/// removed is what `t` holds there.
pub open spec fn made_on(op: EditOpView, t: Seq<u8>) -> bool {
    match op {
        EditOpView::Insert { offset, .. } => offset <= t.len(),
        EditOpView::Delete { offset, deleted } => offset + deleted.len() <= t.len() && t.subrange(
            offset as int,
            offset + deleted.len(),
        ) == deleted,
        EditOpView::Replace { offset, old_text, .. } => offset + old_text.len() <= t.len()
            && t.subrange(offset as int, offset + old_text.len()) == old_text,
    }
}

/// Inverting an edit twice gives the edit back.
pub proof fn lemma_inverse_involutive(op: EditOpView)
    ensures
        inverse_spec(inverse_spec(op)) == op,
{
}

/// Undo restores the text: when `op` was made on `t`, its inverse was made
/// on the result, and applying the inverse to the result gives `t` back.
pub proof fn lemma_inverse_restores(op: EditOpView, t: Seq<u8>)
    requires
        made_on(op, t),
    ensures
        made_on(inverse_spec(op), apply_spec(op, t)),
        apply_spec(inverse_spec(op), apply_spec(op, t)) == t,
{
    let u = apply_spec(op, t);
    match op {
        EditOpView::Insert { offset, text } => {
            let o = offset as int;
            assert(u =~= t.take(o) + text + t.skip(o));
            assert(u.subrange(o, o + text.len()) =~= text);
            assert(u.take(o) + seq![] + u.skip(o + text.len()) =~= t);
        },
        EditOpView::Delete { offset, deleted } => {
            let o = offset as int;
            assert(u =~= t.take(o) + t.skip(o + deleted.len()));
            assert(u.take(o) + deleted + u.skip(o) =~= t);
        },
        EditOpView::Replace { offset, old_text, new_text } => {
            let o = offset as int;
            assert(u =~= t.take(o) + new_text + t.skip(o + old_text.len()));
            assert(u.subrange(o, o + new_text.len()) =~= new_text);
            assert(u.take(o) + old_text + u.skip(o + new_text.len()) =~= t);
        },
    }
}

/// Where two valid UTF-8 texts meet is a character boundary of the joined
/// text, which is valid UTF-8 too.
proof fn lemma_join_boundary(a: Seq<u8>, b: Seq<u8>)
    requires
        valid_utf8(a),
        valid_utf8(b),
    ensures
        valid_utf8(a + b),
        is_char_boundary(a + b, a.len() as int),
{
    vstd::utf8::valid_utf8_concat(a, b);
    let j = a + b;
    if b.len() == 0 {
        assert(j =~= a);
        vstd::utf8::is_char_boundary_start_end_of_seq(j);
    } else {
        vstd::utf8::is_char_boundary_start_end_of_seq(b);
        vstd::utf8::is_char_boundary_iff_not_is_continuation_byte(b, 0);
        assert(j[a.len() as int] == b[0]);
        vstd::utf8::is_char_boundary_iff_not_is_continuation_byte(j, a.len() as int);
    }
}

/// Undo can always be applied: when `op` can be applied to `t`, where it
/// was made, and inserts valid UTF-8, its inverse can be applied to the
/// result (as long as that result fits in memory).
pub proof fn lemma_inverse_applies(op: EditOpView, t: Seq<u8>)
    requires
        made_on(op, t),
        can_apply(op, t),
        valid_utf8(edit_insertion(op)),
        apply_spec(op, t).len() <= usize::MAX,
    ensures
        can_apply(inverse_spec(op), apply_spec(op, t)),
{
    let (o, e) = edit_range(op, t);
    let a = t.take(o as int);
    let ins = edit_insertion(op);
    let c = t.skip(e as int);
    vstd::utf8::valid_utf8_split(t, o as int);
    vstd::utf8::valid_utf8_split(t, e as int);
    assert(a =~= t.subrange(0, o as int));
    assert(c =~= t.subrange(e as int, t.len() as int));
    let u = apply_spec(op, t);
    assert(u == a + ins + c);
    lemma_join_boundary(a, ins);
    lemma_join_boundary(a + ins, c);
    lemma_join_boundary(ins, c);
    lemma_join_boundary(a, ins + c);
    assert(a + ins + c =~= a + (ins + c));
    let (o2, e2) = edit_range(inverse_spec(op), u);
    assert(o2 == o);
    assert(e2 == o + ins.len());
}

/// `find_stack` finds the last stack of a scroll.
proof fn lemma_find_stack_last(s: Seq<(Coordinate, HistoryView)>, c: Coordinate, i: int)
    requires
        0 <= i < s.len(),
        s[i].0 == c,
        forall|k: int| i < k < s.len() ==> (#[trigger] s[k]).0 != c,
    ensures
        find_stack(s, c) == Some(i),
    decreases s.len(),
{
    if i < s.len() - 1 {
        assert forall|k: int| i < k < s.len() - 1 implies (#[trigger] s.drop_last()[k]).0 != c by {
            assert(s.drop_last()[k] == s[k]);
        }
        lemma_find_stack_last(s.drop_last(), c, i);
    }
}

/// After its history is set, a scroll's history is the one set.
pub proof fn lemma_history_set(v: EngineView, c: Coordinate, h: HistoryView, g: nat)
    ensures
        history_of(EngineView { stacks: with_history(v, c, h), global: g }, c) == h,
{
    let s = v.stacks;
    lemma_find_stack(s, c);
    match find_stack(s, c) {
        Some(i) => {
            let s2 = s.update(i, (c, h));
            if exists|k: int| i < k < s.len() && (#[trigger] s[k]).0 == c {
                let k = choose|k: int| i < k < s.len() && (#[trigger] s[k]).0 == c;
                lemma_find_stack_after(s, c, i, k);
            }
            lemma_find_stack_last(s2, c, i);
        },
        None => {
            let s2 = s.push((c, h));
            lemma_find_stack_last(s2, c, s.len() as int);
        },
    }
}

/// No stack of the scroll lies after the one `find_stack` finds.
proof fn lemma_find_stack_after(s: Seq<(Coordinate, HistoryView)>, c: Coordinate, i: int, k: int)
    requires
        find_stack(s, c) == Some(i),
        i < k < s.len(),
    ensures
        s[k].0 != c,
    decreases s.len(),
{
    lemma_find_stack(s, c);
    if s.last().0 != c {
        let d = s.drop_last();
        if k < d.len() {
            assert(d[k] == s[k]);
            lemma_find_stack_after(d, c, i, k);
        }
    }
}

/// Recording an edit and then undoing gives back the inverse of the edit
/// and the cursor from before it; nothing is left to redo right after the
/// edit is recorded.
pub proof fn lemma_record_then_undo(
    v: EngineView,
    t: Coordinate,
    op: EditOpView,
    before: Position,
    after: Position,
)
    requires
        engine_wf(v),
    ensures
        ({
            let h = history_of(recorded(v, t, op, before, after), t);
            &&& h.cursor > 0
            &&& h.cursor == h.records.len()
            &&& inverse_spec(h.records[h.cursor - 1].op) == inverse_spec(op)
            &&& h.records[h.cursor - 1].before == before
            &&& h.records[h.cursor - 1].after == after
        }),
{
    let h0 = history_of(v, t);
    lemma_find_stack(v.stacks, t);
    let r = RecordView { target: t, op, before, after, sequence: (h0.records.len() + 1) as usize };
    lemma_history_set(v, t, history_pushed(h0, r), v.global + 1);
}

/// Undoing and then redoing gives back the undone edit and the cursor
/// from after it, and leaves the cursor where it was.
pub proof fn lemma_undo_then_redo(v: EngineView, t: Coordinate)
    requires
        history_of(v, t).cursor > 0,
        history_of(v, t).cursor <= history_of(v, t).records.len(),
    ensures
        ({
            let h = history_of(v, t);
            let u = with_cursor(v, t, (h.cursor - 1) as nat);
            let hu = history_of(u, t);
            &&& hu.cursor < hu.records.len()
            &&& hu.records[hu.cursor as int] == h.records[h.cursor - 1]
            &&& history_of(with_cursor(u, t, hu.cursor + 1), t) == h
        }),
{
    let h = history_of(v, t);
    let u = with_cursor(v, t, (h.cursor - 1) as nat);
    lemma_history_set(v, t, HistoryView { records: h.records, cursor: (h.cursor - 1) as nat }, v.global);
    let hu = history_of(u, t);
    lemma_history_set(u, t, HistoryView { records: hu.records, cursor: hu.cursor + 1 }, u.global);
}

} // verus!
