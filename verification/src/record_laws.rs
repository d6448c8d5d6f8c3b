//! Reading an edit record back gives the edit it was written from.
//!
//! The record of an edit is a small text: five header lines and the edit's
//! content. The proofs here split such a text at its line feeds and follow
//! the reader line by line.
use vstd::prelude::*;

use crate::coordinate::decimal;
use crate::cursor::{position_text, Position};
use crate::text::{
    all_digits, closed_lines, digits_value, find_from, has_prefix, line_start, lines_of,
    parse_usize_spec,
};
use crate::undo::{
    cursor_tag, delete_name, edit_body, edit_name, edit_offset, edit_recorded_len, from_scroll_spec,
    insert_name, len_tag, line_bytes, offset_tag, op_tag, parse_position_spec,
    record_body, replace_name, replace_separator, rule_line, scroll_record, EditOpView,
};

verus! {

/// Whether `b` has no line feed before position `n`.
pub open spec fn no_feed_before(b: Seq<u8>, n: nat) -> bool {
    forall|i: int| 0 <= i < n ==> #[trigger] b[i] != 10u8
}

/// Line ranges moved `d` bytes to the right.
pub open spec fn shifted(s: Seq<(nat, nat)>, d: nat) -> Seq<(nat, nat)> {
    s.map_values(|p: (nat, nat)| (p.0 + d, p.1 + d))
}

/// Before the first line feed no line is closed and the current line
/// starts at 0.
proof fn lemma_no_feed(b: Seq<u8>, n: nat)
    requires
        n <= b.len(),
        no_feed_before(b, n),
    ensures
        closed_lines(b, n) == Seq::<(nat, nat)>::empty(),
        line_start(b, n) == 0,
    decreases n,
{
    if n > 0 {
        lemma_no_feed(b, (n - 1) as nat);
    }
}

/// The lines of `x`, a line feed and `y`, where `x` holds no line feed and
/// does not end with a carriage return, as far as `m` bytes into `y`: the
/// line `x`, then the lines of `y` moved past the line feed.
proof fn lemma_split_prefix(x: Seq<u8>, y: Seq<u8>, m: nat)
    requires
        m <= y.len(),
        no_feed_before(x, x.len()),
        !(x.len() > 0 && x.last() == 13u8),
    ensures
        closed_lines(x + seq![10u8] + y, x.len() + 1 + m) == seq![(0nat, x.len())] + shifted(
            closed_lines(y, m),
            x.len() + 1,
        ),
        line_start(x + seq![10u8] + y, x.len() + 1 + m) == x.len() + 1 + line_start(y, m),
    decreases m,
{
    let b = x + seq![10u8] + y;
    let k = x.len() + 1;
    if m == 0 {
        assert(no_feed_before(b, x.len())) by {
            assert forall|i: int| 0 <= i < x.len() implies #[trigger] b[i] != 10u8 by {
                assert(b[i] == x[i]);
            }
        }
        lemma_no_feed(b, x.len());
        assert(b[x.len() as int] == 10u8);
        if x.len() > 0 {
            assert(b[x.len() - 1] == x.last());
        }
        assert(closed_lines(y, 0) == Seq::<(nat, nat)>::empty());
        assert(shifted(Seq::<(nat, nat)>::empty(), k) =~= Seq::<(nat, nat)>::empty());
        assert(closed_lines(b, k) =~= seq![(0nat, x.len())]);
    } else {
        let m1 = (m - 1) as nat;
        lemma_split_prefix(x, y, m1);
        assert(b[(k + m1) as int] == y[m1 as int]);
        if y[m1 as int] == 10u8 {
            if m1 > 0 {
                assert(b[k + m1 - 1] == y[m1 - 1]);
            }
            assert(closed_lines(b, k + m) =~= seq![(0nat, x.len())] + shifted(closed_lines(y, m), k));
        } else {
            assert(closed_lines(b, k + m) =~= seq![(0nat, x.len())] + shifted(closed_lines(y, m), k));
        }
    }
}

/// The lines of `x`, a line feed and `y`: the line `x`, then the lines of
/// `y` moved past the line feed.
pub proof fn lemma_lines_split(x: Seq<u8>, y: Seq<u8>)
    requires
        no_feed_before(x, x.len()),
        !(x.len() > 0 && x.last() == 13u8),
    ensures
        lines_of(x + seq![10u8] + y) == seq![(0nat, x.len())] + shifted(lines_of(y), x.len() + 1),
        lines_of(x + seq![10u8] + y).len() == lines_of(y).len() + 1,
        line_bytes(x + seq![10u8] + y, 0) == x,
        forall|j: int|
            0 <= j < lines_of(y).len() ==> #[trigger] line_bytes(x + seq![10u8] + y, j + 1)
                == line_bytes(y, j),
{
    let b = x + seq![10u8] + y;
    let k = x.len() + 1;
    lemma_split_prefix(x, y, y.len());
    assert(b.len() == k + y.len());
    let ly = lines_of(y);
    if line_start(y, y.len()) < y.len() {
        assert(shifted(closed_lines(y, y.len()).push((line_start(y, y.len()), y.len())), k) =~= shifted(
            closed_lines(y, y.len()),
            k,
        ).push((line_start(y, y.len()) + k, y.len() + k)));
        assert(lines_of(b) =~= seq![(0nat, x.len())] + shifted(ly, k));
    } else {
        assert(lines_of(b) =~= seq![(0nat, x.len())] + shifted(ly, k));
    }
    assert(b.subrange(0, x.len() as int) =~= x);
    assert forall|j: int| 0 <= j < ly.len() implies #[trigger] line_bytes(b, j + 1) == line_bytes(y, j) by {
        assert(lines_of(b)[j + 1] == (ly[j].0 + k, ly[j].1 + k));
        crate::text::lemma_lines_ordered(y, j);
        crate::text::lemma_lines_bounded(y);
        assert(b.subrange((ly[j].0 + k) as int, (ly[j].1 + k) as int) =~= y.subrange(ly[j].0 as int, ly[j].1 as int));
    }
}

/// The digits of a decimal number, and their value.
proof fn lemma_decimal_digits(n: nat)
    ensures
        all_digits(decimal(n)),
        digits_value(decimal(n)) == n,
        decimal(n).len() >= 1,
    decreases n,
{
    if n >= 10 {
        lemma_decimal_digits(n / 10);
        let d = decimal(n);
        assert(d.drop_last() =~= decimal(n / 10));
        assert(d.last() == ((n % 10) + 48) as u8);
        assert(d.last() - 48 == n % 10);
        assert(digits_value(d) == digits_value(decimal(n / 10)) * 10 + (n % 10));
        assert(n == 10 * (n / 10) + n % 10) by {
            vstd::arithmetic::div_mod::lemma_fundamental_div_mod(n as int, 10);
        }
        assert forall|i: int| 0 <= i < d.len() implies 48 <= #[trigger] d[i] <= 57 by {
            if i < d.len() - 1 {
                assert(d[i] == decimal(n / 10)[i]);
            }
        }
    } else {
        assert(decimal(n).drop_last() =~= Seq::<u8>::empty());
        assert(decimal(n).last() - 48 == n);
        assert(digits_value(decimal(n)) == digits_value(Seq::<u8>::empty()) * 10 + n);
    }
}

/// Reading back the decimal digits of a number that fits gives the number.
proof fn lemma_decimal_parse(n: nat)
    requires
        n <= usize::MAX,
    ensures
        parse_usize_spec(decimal(n)) == Some(n as usize),
{
    lemma_decimal_digits(n);
    assert(48 <= decimal(n)[0] <= 57);
}

/// The first occurrence of byte `c` at or after `j` is at `k` when `s[k]`
/// is `c` and no byte in between is.
proof fn lemma_find_byte(s: Seq<u8>, c: u8, j: nat, k: nat)
    requires
        j <= k < s.len(),
        s[k as int] == c,
        forall|i: int| j <= i < k ==> #[trigger] s[i] != c,
    ensures
        find_from(s, seq![c], j) == Some(k),
    decreases k - j,
{
    assert(s.subrange(j as int, (j + 1) as int) =~= seq![s[j as int]]);
    if j < k {
        assert(seq![s[j as int]][0] != seq![c][0]);
        lemma_find_byte(s, c, j + 1, k);
    }
}

/// A position written as text reads back as itself.
proof fn lemma_position_parse(p: Position)
    requires
        p.line < usize::MAX,
        p.col < usize::MAX,
    ensures
        parse_position_spec(position_text(p)) == Some(p),
{
    let l = decimal((p.line + 1) as nat);
    let c = decimal((p.col + 1) as nat);
    let t = position_text(p);
    lemma_decimal_digits((p.line + 1) as nat);
    lemma_decimal_parse((p.line + 1) as nat);
    lemma_decimal_parse((p.col + 1) as nat);
    assert forall|i: int| 0 <= i < l.len() implies #[trigger] t[i] != 58u8 by {
        assert(t[i] == l[i]);
    }
    assert(t[l.len() as int] == 58u8);
    lemma_find_byte(t, 58u8, 0, l.len());
    assert(t.take(l.len() as int) =~= l);
    assert(t.skip((l.len() + 1) as int) =~= c);
}

/// Bytes that are digits hold no line feed, colon or `>`.
proof fn lemma_digits_plain(d: Seq<u8>)
    requires
        all_digits(d),
    ensures
        forall|i: int| 0 <= i < d.len() ==> #[trigger] d[i] != 10u8 && d[i] != 13u8 && d[i] != 58u8 && d[i]
            != 62u8,
{
    assert forall|i: int| 0 <= i < d.len() implies #[trigger] d[i] != 10u8 && d[i] != 13u8 && d[i] != 58u8
        && d[i] != 62u8 by {
        assert(48 <= d[i] <= 57);
    }
}

/// No line feed in a concatenation of two texts without one.
proof fn lemma_no_feed_concat(a: Seq<u8>, b: Seq<u8>)
    requires
        no_feed_before(a, a.len()),
        no_feed_before(b, b.len()),
    ensures
        no_feed_before(a + b, (a + b).len()),
{
    assert forall|i: int| 0 <= i < (a + b).len() implies #[trigger] (a + b)[i] != 10u8 by {
        if i < a.len() {
            assert((a + b)[i] == a[i]);
        } else {
            assert((a + b)[i] == b[i - a.len()]);
        }
    }
}

/// Whether a header line can stand before a line feed: it holds no line
/// feed and does not end with a carriage return.
pub open spec fn plain_line(l: Seq<u8>) -> bool {
    no_feed_before(l, l.len()) && !(l.len() > 0 && l.last() == 13u8)
}

/// Whether reading a record's content back gives the edit's texts: for a
/// replacement, the separator first occurs right after the old text.
pub open spec fn body_reads_back(op: EditOpView) -> bool {
    op matches EditOpView::Replace { old_text, .. } ==> find_from(edit_body(op), replace_separator(), 0)
        == Some(old_text.len())
}

/// The first line of a text starts at its beginning, and a text with bytes
/// has a line.
proof fn lemma_first_line(b: Seq<u8>, n: nat)
    requires
        n <= b.len(),
    ensures
        closed_lines(b, n).len() > 0 ==> closed_lines(b, n)[0].0 == 0,
        closed_lines(b, n).len() == 0 ==> line_start(b, n) == 0,
    decreases n,
{
    if n > 0 {
        lemma_first_line(b, (n - 1) as nat);
    }
}

/// A text with bytes has lines, the first starting at 0.
proof fn lemma_lines_start(b: Seq<u8>)
    requires
        b.len() > 0,
    ensures
        lines_of(b).len() > 0,
        lines_of(b)[0].0 == 0,
{
    lemma_first_line(b, b.len());
    if closed_lines(b, b.len()).len() == 0 {
        assert(lines_of(b) == closed_lines(b, b.len()).push((0nat, b.len())));
    }
}

/// The lines of `l`, a line feed and `y`: `l` first, then those of `y`.
proof fn lemma_peel(l: Seq<u8>, y: Seq<u8>)
    requires
        plain_line(l),
    ensures
        lines_of(l + seq![10u8] + y).len() == lines_of(y).len() + 1,
        line_bytes(l + seq![10u8] + y, 0) == l,
        forall|j: int|
            1 <= j <= lines_of(y).len() ==> #[trigger] line_bytes(l + seq![10u8] + y, j) == line_bytes(y, j - 1),
{
    lemma_lines_split(l, y);
    let b = l + seq![10u8] + y;
    assert forall|j: int| 1 <= j <= lines_of(y).len() implies #[trigger] line_bytes(b, j) == line_bytes(y, j - 1) by {
        assert(line_bytes(b, (j - 1) + 1) == line_bytes(y, j - 1));
    }
}

/// The lines of a record: the five header lines, then the content, which
/// is what reading takes as the record's body.
proof fn lemma_record_lines(op: EditOpView, before: Position, after: Position)
    ensures
        ({
            let b = scroll_record(op, before, after);
            &&& lines_of(b).len() >= 5
            &&& line_bytes(b, 0) == op_tag() + edit_name(op)
            &&& line_bytes(b, 1) == offset_tag() + decimal(edit_offset(op) as nat)
            &&& line_bytes(b, 3) == cursor_tag() + position_text(before) + seq![62u8] + position_text(after)
            &&& line_bytes(b, 4) == rule_line()
            &&& record_body(b) == edit_body(op)
        }),
{
    let body = edit_body(op);
    let l0 = op_tag() + edit_name(op);
    let l1 = offset_tag() + decimal(edit_offset(op) as nat);
    let l2 = len_tag() + decimal(edit_recorded_len(op));
    let l3 = cursor_tag() + position_text(before) + seq![62u8] + position_text(after);
    let l4 = rule_line();
    let y4 = l4 + seq![10u8] + body;
    let y3 = l3 + seq![10u8] + y4;
    let y2 = l2 + seq![10u8] + y3;
    let y1 = l1 + seq![10u8] + y2;
    let b = l0 + seq![10u8] + y1;
    assert(b =~= scroll_record(op, before, after));
    lemma_header_lines_plain(op, before, after);
    lemma_peel(l4, body);
    lemma_peel(l3, y4);
    lemma_peel(l2, y3);
    lemma_peel(l1, y2);
    lemma_peel(l0, y1);
    assert(line_bytes(b, 1) == line_bytes(y1, 0));
    assert(line_bytes(b, 3) == line_bytes(y1, 2));
    assert(line_bytes(y1, 2) == line_bytes(y2, 1));
    assert(line_bytes(y2, 1) == line_bytes(y3, 0));
    assert(line_bytes(b, 4) == line_bytes(y1, 3));
    assert(line_bytes(y1, 3) == line_bytes(y2, 2));
    assert(line_bytes(y2, 2) == line_bytes(y3, 1));
    assert(line_bytes(y3, 1) == line_bytes(y4, 0));
    lemma_lines_split(l4, body);
    lemma_lines_split(l3, y4);
    lemma_lines_split(l2, y3);
    lemma_lines_split(l1, y2);
    lemma_lines_split(l0, y1);
    if body.len() > 0 {
        lemma_lines_start(body);
        let h = l0.len() + l1.len() + l2.len() + l3.len() + l4.len() + 5;
        assert(lines_of(y4)[1].0 == lines_of(body)[0].0 + l4.len() + 1);
        assert(lines_of(y3)[2].0 == lines_of(y4)[1].0 + l3.len() + 1);
        assert(lines_of(y2)[3].0 == lines_of(y3)[2].0 + l2.len() + 1);
        assert(lines_of(y1)[4].0 == lines_of(y2)[3].0 + l1.len() + 1);
        assert(lines_of(b)[5].0 == lines_of(y1)[4].0 + l0.len() + 1);
        assert(b.skip(h as int) =~= body);
    } else {
        assert(lines_of(body).len() == 0);
    }
}

/// The first header line is plain.
proof fn lemma_header_lines_plain(op: EditOpView, before: Position, after: Position)
    ensures
        plain_line(op_tag() + edit_name(op)),
        plain_line(offset_tag() + decimal(edit_offset(op) as nat)),
        plain_line(len_tag() + decimal(edit_recorded_len(op))),
        plain_line(cursor_tag() + position_text(before) + seq![62u8] + position_text(after)),
        plain_line(rule_line()),
{
    let name = edit_name(op);
    assert(no_feed_before(op_tag(), 3));
    assert(no_feed_before(name, name.len()));
    lemma_no_feed_concat(op_tag(), name);
    assert((op_tag() + name).last() == name.last());
    let d1 = decimal(edit_offset(op) as nat);
    lemma_decimal_digits(edit_offset(op) as nat);
    lemma_digits_plain(d1);
    assert(no_feed_before(offset_tag(), 7));
    lemma_no_feed_concat(offset_tag(), d1);
    assert((offset_tag() + d1).last() == d1.last());
    let d2 = decimal(edit_recorded_len(op));
    lemma_decimal_digits(edit_recorded_len(op));
    lemma_digits_plain(d2);
    assert(no_feed_before(len_tag(), 4));
    lemma_no_feed_concat(len_tag(), d2);
    assert((len_tag() + d2).last() == d2.last());
    let pb = position_text(before);
    let pa = position_text(after);
    lemma_position_plain(before);
    lemma_position_plain(after);
    assert(no_feed_before(cursor_tag(), 7));
    lemma_no_feed_concat(cursor_tag(), pb);
    assert(no_feed_before(seq![62u8], 1));
    lemma_no_feed_concat(cursor_tag() + pb, seq![62u8]);
    lemma_no_feed_concat(cursor_tag() + pb + seq![62u8], pa);
    assert((cursor_tag() + pb + seq![62u8] + pa).last() == pa.last());
    assert(no_feed_before(rule_line(), 3));
}

/// A position's text holds no line feed or `>` and ends with a digit.
proof fn lemma_position_plain(p: Position)
    ensures
        forall|i: int| 0 <= i < position_text(p).len() ==> #[trigger] position_text(p)[i] != 10u8 && position_text(p)[i] != 62u8,
        48 <= position_text(p).last() <= 57,
        position_text(p).len() > 0,
{
    let l = decimal((p.line + 1) as nat);
    let c = decimal((p.col + 1) as nat);
    let t = position_text(p);
    lemma_decimal_digits((p.line + 1) as nat);
    lemma_decimal_digits((p.col + 1) as nat);
    lemma_digits_plain(l);
    lemma_digits_plain(c);
    assert forall|i: int| 0 <= i < t.len() implies #[trigger] t[i] != 10u8 && t[i] != 62u8 by {
        if i < l.len() {
            assert(t[i] == l[i]);
        } else if i > l.len() {
            assert(t[i] == c[i - l.len() - 1]);
        }
    }
    assert(t.last() == c.last());
    assert(48 <= c[c.len() - 1] <= 57);
}

/// Reading back the record of an edit gives the edit and both cursor
/// positions, whenever the positions leave room to be counted from 1 and
/// the edit's content reads back (it has no carriage return before a line
/// feed, no final line feed and, in a replacement, no separator line
/// inside the old text).
pub proof fn lemma_record_roundtrip(op: EditOpView, before: Position, after: Position)
    requires
        before.line < usize::MAX,
        before.col < usize::MAX,
        after.line < usize::MAX,
        after.col < usize::MAX,
        body_reads_back(op),
    ensures
        from_scroll_spec(scroll_record(op, before, after)) == Some((op, before, after)),
{
    let body = edit_body(op);
    let l0 = op_tag() + edit_name(op);
    let l1 = offset_tag() + decimal(edit_offset(op) as nat);
    let pb = position_text(before);
    let pa = position_text(after);
    let l3 = cursor_tag() + pb + seq![62u8] + pa;
    lemma_record_lines(op, before, after);
    // the operation line
    assert(l0.take(3) =~= op_tag());
    assert(l0.skip(3) =~= edit_name(op));
    // the offset line
    assert(l1.take(7) =~= offset_tag());
    assert(l1.skip(7) =~= decimal(edit_offset(op) as nat));
    lemma_decimal_parse(edit_offset(op) as nat);
    // the cursor line
    assert(l3.take(7) =~= cursor_tag());
    let c = l3.skip(7);
    assert(c =~= pb + seq![62u8] + pa);
    lemma_position_plain(before);
    assert forall|i: int| 0 <= i < pb.len() implies #[trigger] c[i] != 62u8 by {
        assert(c[i] == pb[i]);
    }
    assert(c[pb.len() as int] == 62u8);
    lemma_find_byte(c, 62u8, 0, pb.len());
    assert(c.take(pb.len() as int) =~= pb);
    assert(c.skip((pb.len() + 1) as int) =~= pa);
    lemma_position_parse(before);
    lemma_position_parse(after);
    assert(insert_name()[0] != delete_name()[0]);
    assert(insert_name()[0] != replace_name()[0]);
    assert(delete_name()[0] != replace_name()[0]);
    match op {
        EditOpView::Replace { offset, old_text, new_text } => {
            assert(body.take(old_text.len() as int) =~= old_text);
            assert(body.skip((old_text.len() + 5) as int) =~= new_text);
        },
        _ => {},
    }
}

} // verus!
