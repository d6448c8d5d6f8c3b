//! Indexing the phext bytes that a document is written as gives back the
//! document's scrolls.
//!
//! Written bytes put, before each scroll, the delimiters that carry the
//! coordinate from the previous scroll to it. The proofs here follow the
//! index's reading of those bytes: the delimiters close the previous scroll
//! and walk the coordinate to the next one, and the content that follows
//! stays open until the next delimiter.
use vstd::prelude::*;

use crate::coordinate::{base_coordinate, coord_lt, nth_value, Coordinate, COORDINATE_MAXIMUM};
use crate::coordinate_ext::{
    broken, delimiter_of, dim_val, dimension_of_rank, rank, reset_below, with_val, Dimension,
};
use crate::index::{
    coord_at, committed, delimiter_dim, in_delimiter_range, index_entries, is_delimiter,
    segment_start, ScrollSpan,
};
use crate::coordinate::strictly_sorted;
use crate::index::{coords_of, lookup, lemma_lookup_some_iff};
use crate::mmap::{dim_step_bytes, dim_step_end, repeat_byte, serialize, steps, MappedLattice};
use vstd::utf8::{decode_utf8, encode_utf8, valid_utf8};

verus! {

/// The coordinate reached from `c` by reading the bytes `d`.
pub open spec fn walk(c: Coordinate, d: Seq<u8>) -> Coordinate
    decreases d.len(),
{
    if d.len() == 0 {
        c
    } else {
        let w = walk(c, d.drop_last());
        match delimiter_dim(d.last()) {
            Some(x) => broken(w, x),
            None => w,
        }
    }
}

/// Reading the first `n` bytes of a longer text gives what reading them
/// alone gives.
proof fn lemma_read_prefix(a: Seq<u8>, x: Seq<u8>, n: nat)
    requires
        n <= a.len(),
    ensures
        coord_at(a + x, n) == coord_at(a, n),
        segment_start(a + x, n) == segment_start(a, n),
        committed(a + x, n) == committed(a, n),
    decreases n,
{
    if n > 0 {
        lemma_read_prefix(a, x, (n - 1) as nat);
        assert((a + x)[n - 1] == a[n - 1]);
    }
}

/// Reading on past position `n` of `a + d` walks the coordinate reached at
/// `n` over the bytes of `d`.
proof fn lemma_read_walk(a: Seq<u8>, d: Seq<u8>, j: nat)
    requires
        j <= d.len(),
    ensures
        coord_at(a + d, a.len() + j) == walk(coord_at(a, a.len()), d.take(j as int)),
    decreases j,
{
    if j == 0 {
        lemma_read_prefix(a, d, a.len());
        assert(d.take(0).len() == 0);
    } else {
        lemma_read_walk(a, d, (j - 1) as nat);
        assert(d.take(j as int).drop_last() =~= d.take(j - 1));
        assert((a + d)[a.len() + j - 1] == d[j - 1]);
    }
}

/// A delimiter byte names its own dimension.
proof fn lemma_delimiter_dim(d: Dimension)
    ensures
        delimiter_dim(delimiter_of(d)) == Some(d),
{
}

/// Setting a dimension and resetting the finer ones, twice, is the second
/// setting alone; the dimension then holds the value set.
proof fn lemma_set_reset(c: Coordinate, d: Dimension, u: usize, v: usize)
    ensures
        dim_val(reset_below(with_val(c, d, u), d), d) == u,
        reset_below(with_val(reset_below(with_val(c, d, u), d), d, v), d) == reset_below(with_val(c, d, v), d),
{
    match d {
        Dimension::Scroll => {},
        Dimension::Section => {},
        Dimension::Chapter => {},
        Dimension::Book => {},
        Dimension::Volume => {},
        Dimension::Collection => {},
        Dimension::Series => {},
        Dimension::Shelf => {},
        Dimension::Library => {},
    }
}

/// Reading `m` delimiters of dimension `d` advances `d` by `m` and resets
/// every finer dimension to 1.
proof fn lemma_walk_repeat(c: Coordinate, d: Dimension, m: nat)
    requires
        m >= 1,
        dim_val(c, d) + m < COORDINATE_MAXIMUM,
    ensures
        walk(c, repeat_byte(delimiter_of(d), m)) == reset_below(with_val(c, d, (dim_val(c, d) + m) as usize), d),
    decreases m,
{
    let r = repeat_byte(delimiter_of(d), m);
    lemma_delimiter_dim(d);
    assert(r.drop_last() =~= repeat_byte(delimiter_of(d), (m - 1) as nat));
    assert(r.last() == delimiter_of(d));
    let v = dim_val(c, d);
    if m == 1 {
        assert(r.drop_last().len() == 0);
        assert(walk(c, r.drop_last()) == c);
        assert(walk(c, r) == broken(c, d));
    } else {
        lemma_walk_repeat(c, d, (m - 1) as nat);
        let w = reset_below(with_val(c, d, (v + m - 1) as usize), d);
        assert(walk(c, r) == broken(w, d));
        lemma_set_reset(c, d, (v + m - 1) as usize, (v + m) as usize);
    }
}

/// Reading `a` then `b` walks as reading `a + b`.
proof fn lemma_walk_concat(c: Coordinate, a: Seq<u8>, b: Seq<u8>)
    ensures
        walk(c, a + b) == walk(walk(c, a), b),
    decreases b.len(),
{
    if b.len() == 0 {
        assert(a + b =~= a);
    } else {
        lemma_walk_concat(c, a, b.drop_last());
        assert((a + b).drop_last() =~= a + b.drop_last());
        assert((a + b).last() == b.last());
    }
}

/// Whether `a` comes no later than `b` when compared from position `p`
/// (0 is the library, 8 the scroll) inwards.
pub open spec fn lex_le_from(a: Coordinate, b: Coordinate, p: int) -> bool
    decreases 9 - p,
{
    if p >= 9 {
        true
    } else if nth_value(a, p) < nth_value(b, p) {
        true
    } else if nth_value(a, p) == nth_value(b, p) {
        lex_le_from(a, b, p + 1)
    } else {
        false
    }
}

/// Whether `a` and `b` agree on every position before `p`.
pub open spec fn agree_before(a: Coordinate, b: Coordinate, p: int) -> bool {
    forall|q: int| 0 <= q < p ==> #[trigger] nth_value(a, q) == nth_value(b, q)
}

/// A coordinate no larger than another at every position from `p` on comes
/// no later from `p` on.
proof fn lemma_pointwise_lex(a: Coordinate, b: Coordinate, p: int)
    requires
        0 <= p,
        forall|q: int| p <= q < 9 ==> #[trigger] nth_value(a, q) <= nth_value(b, q),
    ensures
        lex_le_from(a, b, p),
    decreases 9 - p,
{
    if p < 9 {
        assert(nth_value(a, p) <= nth_value(b, p));
        lemma_pointwise_lex(a, b, p + 1);
    }
}

/// Document order implies the order compared from the library inwards.
proof fn lemma_lt_lex(a: Coordinate, b: Coordinate)
    requires
        coord_lt(a, b),
    ensures
        lex_le_from(a, b, 0),
{
    reveal_with_fuel(lex_le_from, 10);
}

/// The dimension of key `k` sits at position `9 - k`; setting it to `v`
/// and resetting the finer ones keeps the positions before, puts `v` there
/// and 1 after.
proof fn lemma_set_reset_nth(c: Coordinate, k: int, v: usize, q: int)
    requires
        1 <= k <= 9,
        0 <= q < 9,
    ensures
        rank(dimension_of_rank(k)) == k,
        dim_val(c, dimension_of_rank(k)) == nth_value(c, 9 - k),
        nth_value(reset_below(with_val(c, dimension_of_rank(k), v), dimension_of_rank(k)), q) == if q < 9 - k {
            nth_value(c, q)
        } else if q == 9 - k {
            v
        } else {
            1usize
        },
{
}

/// Two coordinates that agree on all nine positions are equal.
proof fn lemma_agree_all(a: Coordinate, b: Coordinate)
    requires
        agree_before(a, b, 9),
    ensures
        a == b,
{
    assert(nth_value(a, 0) == nth_value(b, 0));
    assert(nth_value(a, 1) == nth_value(b, 1));
    assert(nth_value(a, 2) == nth_value(b, 2));
    assert(nth_value(a, 3) == nth_value(b, 3));
    assert(nth_value(a, 4) == nth_value(b, 4));
    assert(nth_value(a, 5) == nth_value(b, 5));
    assert(nth_value(a, 6) == nth_value(b, 6));
    assert(nth_value(a, 7) == nth_value(b, 7));
    assert(nth_value(a, 8) == nth_value(b, 8));
}

/// Every position of a coordinate in the delimiters' range holds a value
/// from 1 to 999.
proof fn lemma_range_nth(c: Coordinate, q: int)
    requires
        in_delimiter_range(c),
        0 <= q < 9,
    ensures
        1 <= nth_value(c, q) <= 999,
{
}

/// The delimiters written to move from `cur` to `t`, from key `k` down,
/// walk `cur` to `t`, when the two agree above `k` and `cur` comes no
/// later from there on.
proof fn lemma_walk_steps(cur: Coordinate, t: Coordinate, k: int)
    requires
        0 <= k <= 9,
        agree_before(cur, t, 9 - k),
        lex_le_from(cur, t, 9 - k),
        in_delimiter_range(cur),
        in_delimiter_range(t),
    ensures
        walk(cur, steps(cur, t, k)) == t,
    decreases k,
{
    if k == 0 {
        lemma_agree_all(cur, t);
        assert(steps(cur, t, k).len() == 0);
    } else {
        let d = dimension_of_rank(k);
        let p = 9 - k;
        let bytes = dim_step_bytes(cur, t, d);
        let next = dim_step_end(cur, t, d);
        lemma_set_reset_nth(cur, k, nth_value(t, p), 0);
        lemma_set_reset_nth(t, k, nth_value(t, p), 0);
        lemma_range_nth(cur, p);
        lemma_range_nth(t, p);
        assert(steps(cur, t, k) == bytes + steps(next, t, k - 1));
        lemma_walk_concat(cur, bytes, steps(next, t, k - 1));
        if nth_value(cur, p) < nth_value(t, p) {
            let m = (nth_value(t, p) - nth_value(cur, p)) as nat;
            lemma_walk_repeat(cur, d, m);
            assert(walk(cur, bytes) == next);
            assert forall|q: int| 0 <= q < 9 implies #[trigger] nth_value(next, q) == if q < p {
                nth_value(cur, q)
            } else if q == p {
                nth_value(t, p)
            } else {
                1usize
            } by {
                lemma_set_reset_nth(cur, k, nth_value(t, p), q);
            }
            assert forall|q: int| p + 1 <= q < 9 implies #[trigger] nth_value(next, q) <= nth_value(t, q) by {
                lemma_range_nth(t, q);
            }
            lemma_pointwise_lex(next, t, p + 1);
            assert(in_delimiter_range(next)) by {
                assert forall|q: int| 0 <= q < 9 implies 1 <= #[trigger] nth_value(next, q) <= 999 by {
                    lemma_range_nth(cur, q);
                }
                assert(nth_value(next, 0) == next.z.library);
            }
        } else {
            assert(nth_value(cur, p) == nth_value(t, p));
            assert(bytes.len() == 0);
            assert(walk(cur, bytes) == cur);
            assert(next == cur);
        }
        lemma_walk_steps(next, t, k - 1);
    }
}

/// Reading delimiters closes the scroll being read, if it holds any
/// bytes, and leaves an empty scroll open after the last of them.
proof fn lemma_read_delims(a: Seq<u8>, d: Seq<u8>, j: nat)
    requires
        1 <= j <= d.len(),
        forall|i: int| 0 <= i < d.len() ==> is_delimiter(#[trigger] d[i]),
    ensures
        segment_start(a + d, a.len() + j) == a.len() + j,
        committed(a + d, a.len() + j) == if segment_start(a, a.len()) < a.len() {
            committed(a, a.len()).push(
                (
                    coord_at(a, a.len()),
                    ScrollSpan { start: segment_start(a, a.len()) as usize, end: a.len() as usize },
                ),
            )
        } else {
            committed(a, a.len())
        },
    decreases j,
{
    let x = a + d;
    assert(x[a.len() + j - 1] == d[j - 1]);
    assert(is_delimiter(d[j - 1]));
    if j == 1 {
        lemma_read_prefix(a, d, a.len());
    } else {
        lemma_read_delims(a, d, (j - 1) as nat);
    }
}

/// Reading bytes that hold no delimiter changes neither the coordinate nor
/// the scrolls read so far, and keeps the open scroll open.
proof fn lemma_read_text(a: Seq<u8>, t: Seq<u8>, j: nat)
    requires
        j <= t.len(),
        forall|i: int| 0 <= i < t.len() ==> !is_delimiter(#[trigger] t[i]),
    ensures
        coord_at(a + t, a.len() + j) == coord_at(a, a.len()),
        segment_start(a + t, a.len() + j) == segment_start(a, a.len()),
        committed(a + t, a.len() + j) == committed(a, a.len()),
    decreases j,
{
    if j == 0 {
        lemma_read_prefix(a, t, a.len());
    } else {
        lemma_read_text(a, t, (j - 1) as nat);
        assert((a + t)[a.len() + j - 1] == t[j - 1]);
        assert(!is_delimiter(t[j - 1]));
    }
}

/// Scrolls that phext bytes can carry: coordinates the delimiters reach
/// (every value from 1 to 999), in strictly increasing document order,
/// each with content that holds no delimiter byte.
pub open spec fn carriable(items: Seq<(Coordinate, Seq<u8>)>) -> bool {
    &&& forall|i: int| 0 <= i < items.len() ==> in_delimiter_range(#[trigger] items[i].0)
    &&& forall|i: int, j: int| 0 <= i < j < items.len() ==> coord_lt(#[trigger] items[i].0, #[trigger] items[j].0)
    &&& forall|i: int, k: int|
        0 <= i < items.len() && 0 <= k < items[i].1.len() ==> !is_delimiter(#[trigger] items[i].1[k])
}

/// Carriable scrolls that all hold some content.
pub open spec fn writable(items: Seq<(Coordinate, Seq<u8>)>) -> bool {
    &&& carriable(items)
    &&& forall|i: int| 0 <= i < items.len() ==> (#[trigger] items[i]).1.len() > 0
}

/// The coordinate the writer starts from before scroll `i`.
pub open spec fn prev_coord(items: Seq<(Coordinate, Seq<u8>)>, i: int) -> Coordinate {
    if i == 0 {
        base_coordinate()
    } else {
        items[i - 1].0
    }
}

/// Where scroll `j` lies in the written bytes: it ends where the bytes
/// written up to it end.
pub open spec fn written_entry(items: Seq<(Coordinate, Seq<u8>)>, j: int) -> (Coordinate, ScrollSpan) {
    let e = serialize(items.take(j + 1)).len();
    (items[j].0, ScrollSpan { start: (e - items[j].1.len()) as usize, end: e as usize })
}

/// The first `n` scrolls with where they lie in the written bytes.
pub open spec fn written_entries(items: Seq<(Coordinate, Seq<u8>)>, n: int) -> Seq<(Coordinate, ScrollSpan)> {
    Seq::new(n as nat, |j: int| written_entry(items, j))
}

/// Where the scrolls among the first `n` that hold content lie in the
/// written bytes (an empty scroll leaves no entry).
pub open spec fn written_kept(items: Seq<(Coordinate, Seq<u8>)>, n: int) -> Seq<(Coordinate, ScrollSpan)>
    decreases n,
{
    if n <= 0 {
        seq![]
    } else if items[n - 1].1.len() > 0 {
        written_kept(items, n - 1).push(written_entry(items, n - 1))
    } else {
        written_kept(items, n - 1)
    }
}

/// The bytes written for the first `i + 1` scrolls: those for the first
/// `i`, the delimiters to scroll `i`, and its content.
proof fn lemma_serialize_step(items: Seq<(Coordinate, Seq<u8>)>, i: int)
    requires
        0 <= i < items.len(),
    ensures
        serialize(items.take(i + 1)) == serialize(items.take(i)) + steps(prev_coord(items, i), items[i].0, 9)
            + items[i].1,
{
    let t = items.take(i + 1);
    assert(t.drop_last() =~= items.take(i));
    assert(t.last() == items[i]);
    if i > 0 {
        assert(t[t.len() - 2] == items[i - 1]);
    }
}

/// What the index has read at the end of the bytes written for the first
/// `i` scrolls: the coordinate of scroll `i - 1`, its content still open,
/// and the scrolls before it closed where they were written.
pub open spec fn read_state(items: Seq<(Coordinate, Seq<u8>)>, i: int) -> bool {
    let b = serialize(items.take(i));
    if i == 0 {
        &&& coord_at(b, b.len()) == base_coordinate()
        &&& segment_start(b, b.len()) == b.len()
        &&& committed(b, b.len()) == Seq::<(Coordinate, ScrollSpan)>::empty()
    } else {
        &&& coord_at(b, b.len()) == items[i - 1].0
        &&& segment_start(b, b.len()) == b.len() - items[i - 1].1.len()
        &&& committed(b, b.len()) == written_kept(items, i - 1)
    }
}

/// Reading one more written scroll keeps the reading state.
proof fn lemma_read_step(items: Seq<(Coordinate, Seq<u8>)>, i: int)
    requires
        carriable(items),
        0 <= i < items.len(),
        read_state(items, i),
    ensures
        read_state(items, i + 1),
{
    let b = serialize(items.take(i));
    let prev = prev_coord(items, i);
    let c = items[i].0;
    let d = steps(prev, c, 9);
    let t = items[i].1;
    lemma_serialize_step(items, i);
    let b2 = serialize(items.take(i + 1));
    assert(b2 == b + d + t);
    assert(in_delimiter_range(c));
    // the delimiters walk from the previous coordinate to this scroll's
    if i == 0 {
        assert forall|q: int| 0 <= q < 9 implies #[trigger] nth_value(prev, q) <= nth_value(c, q) by {
            lemma_range_nth(c, q);
        }
        lemma_pointwise_lex(prev, c, 0);
    } else {
        assert(coord_lt(items[i - 1].0, items[i].0));
        lemma_lt_lex(prev, c);
        assert(in_delimiter_range(items[i - 1].0));
    }
    lemma_walk_steps(prev, c, 9);
    lemma_steps_delimiters(prev, c, 9);
    assert forall|k: int| 0 <= k < t.len() implies !is_delimiter(#[trigger] t[k]) by {
        assert(t[k] == items[i].1[k]);
    }
    if d.len() == 0 {
        assert(walk(prev, d) == prev);
        if i > 0 {
            crate::coordinate::lemma_coord_order(prev, c, c);
        }
        assert(i == 0);
        assert(b + d =~= b);
        lemma_read_text(b + d, t, t.len());
        assert(committed(b2, b2.len()) =~= written_kept(items, 0));
    } else {
        lemma_read_delims(b, d, d.len());
        lemma_read_walk(b, d, d.len());
        assert(d.take(d.len() as int) =~= d);
        lemma_read_text(b + d, t, t.len());
        if i == 0 {
            assert(written_kept(items, 0) =~= Seq::<(Coordinate, ScrollSpan)>::empty());
        }
    }
}

/// The delimiters written between two coordinates are delimiter bytes.
proof fn lemma_steps_delimiters(cur: Coordinate, t: Coordinate, k: int)
    ensures
        forall|i: int| 0 <= i < steps(cur, t, k).len() ==> is_delimiter(#[trigger] steps(cur, t, k)[i]),
    decreases k,
{
    if k > 0 {
        let d = dimension_of_rank(k);
        let bytes = dim_step_bytes(cur, t, d);
        let rest = steps(dim_step_end(cur, t, d), t, k - 1);
        lemma_steps_delimiters(dim_step_end(cur, t, d), t, k - 1);
        lemma_delimiter_dim(d);
        assert forall|i: int| 0 <= i < steps(cur, t, k).len() implies is_delimiter(#[trigger] steps(cur, t, k)[i]) by {
            if i < bytes.len() {
                assert(steps(cur, t, k)[i] == bytes[i]);
            } else {
                assert(steps(cur, t, k)[i] == rest[i - bytes.len()]);
            }
        }
    }
}

/// The reading state holds after every number of written scrolls.
proof fn lemma_read_all(items: Seq<(Coordinate, Seq<u8>)>, i: int)
    requires
        carriable(items),
        0 <= i <= items.len(),
    ensures
        read_state(items, i),
    decreases i,
{
    if i == 0 {
        assert(items.take(0) =~= Seq::<(Coordinate, Seq<u8>)>::empty());
        assert(serialize(items.take(0)).len() == 0);
    } else {
        lemma_read_all(items, i - 1);
        lemma_read_step(items, i - 1);
    }
}

/// The bytes written for the first `i` scrolls begin the bytes written for
/// all of them.
proof fn lemma_serialize_prefix(items: Seq<(Coordinate, Seq<u8>)>, i: int)
    requires
        0 <= i <= items.len(),
    ensures
        serialize(items.take(i)).len() <= serialize(items).len(),
        serialize(items).take(serialize(items.take(i)).len() as int) == serialize(items.take(i)),
    decreases items.len(),
{
    if i == items.len() {
        assert(items.take(i) =~= items);
    } else {
        let p = items.drop_last();
        lemma_serialize_prefix(p, i);
        assert(p.take(i) =~= items.take(i));
        let s = serialize(items);
        let sp = serialize(p);
        assert(s == sp + steps(if items.len() == 1 { base_coordinate() } else { items[items.len() - 2].0 }, items.last().0, 9) + items.last().1);
        let n = serialize(items.take(i)).len() as int;
        assert(s.take(n) =~= sp.take(n));
    }
}

/// Where scroll `j` lies in the written bytes, its content stands.
proof fn lemma_written_span(items: Seq<(Coordinate, Seq<u8>)>, j: int)
    requires
        0 <= j < items.len(),
        serialize(items).len() <= usize::MAX,
    ensures
        serialize(items).subrange(written_entry(items, j).1.start as int, written_entry(items, j).1.end as int)
            == items[j].1,
{
    let s = serialize(items);
    let b1 = serialize(items.take(j + 1));
    lemma_serialize_step(items, j);
    lemma_serialize_prefix(items, j + 1);
    assert(s.subrange(b1.len() - items[j].1.len(), b1.len() as int) =~= items[j].1) by {
        assert(s.take(b1.len() as int) == b1);
        assert forall|k: int| 0 <= k < items[j].1.len() implies s.subrange(
            b1.len() - items[j].1.len(),
            b1.len() as int,
        )[k] == items[j].1[k] by {
            assert(s[b1.len() - items[j].1.len() + k] == s.take(b1.len() as int)[b1.len() - items[j].1.len() + k]);
        }
    }
    assert(written_entry(items, j).1.start == b1.len() - items[j].1.len());
    assert(written_entry(items, j).1.end == b1.len());
}

/// Indexing the bytes written for carriable scrolls gives the scrolls that
/// hold content, in order, where they were written.
proof fn lemma_index_reads_kept(items: Seq<(Coordinate, Seq<u8>)>)
    requires
        carriable(items),
    ensures
        index_entries(serialize(items)) == written_kept(items, items.len() as int),
{
    let n = items.len() as int;
    let s = serialize(items);
    lemma_read_all(items, n);
    assert(items.take(n) =~= items);
    if n == 0 {
        assert(index_entries(s) =~= written_kept(items, 0));
    }
}

/// When every scroll holds content, every scroll keeps its entry.
proof fn lemma_kept_all(items: Seq<(Coordinate, Seq<u8>)>, n: int)
    requires
        0 <= n <= items.len(),
        forall|i: int| 0 <= i < items.len() ==> (#[trigger] items[i]).1.len() > 0,
    ensures
        written_kept(items, n) == written_entries(items, n),
    decreases n,
{
    if n > 0 {
        lemma_kept_all(items, n - 1);
        assert(items[n - 1].1.len() > 0);
        assert(written_entries(items, n - 1).push(written_entry(items, n - 1)) =~= written_entries(items, n));
    } else {
        assert(written_entries(items, 0) =~= Seq::<(Coordinate, ScrollSpan)>::empty());
    }
}

/// Looking a coordinate up among the kept entries of the first `n`
/// scrolls finds the scroll at that coordinate when it holds content, and
/// nothing otherwise.
proof fn lemma_kept_lookup(items: Seq<(Coordinate, Seq<u8>)>, n: int, c: Coordinate)
    requires
        carriable(items),
        0 <= n <= items.len(),
    ensures
        forall|j: int| 0 <= j < n && #[trigger] items[j].0 == c ==> lookup(written_kept(items, n), c) == if items[j].1.len() > 0 {
            Some(written_entry(items, j).1)
        } else {
            None
        },
        (forall|j: int| 0 <= j < n ==> #[trigger] items[j].0 != c) ==> lookup(written_kept(items, n), c) is None,
    decreases n,
{
    if n > 0 {
        lemma_kept_lookup(items, n - 1, c);
        let w = written_kept(items, n);
        let p = written_kept(items, n - 1);
        if items[n - 1].1.len() > 0 {
            assert(w.drop_last() == p);
        }
        if items[n - 1].0 == c {
            assert forall|j: int| 0 <= j < n - 1 implies #[trigger] items[j].0 != c by {
                assert(coord_lt(items[j].0, items[n - 1].0));
                crate::coordinate::lemma_coord_order(items[j].0, c, c);
            }
        }
    }
}

/// Indexing the bytes written for scrolls that phext can carry gives back
/// each scroll, in order, at its coordinate and with its content.
pub proof fn lemma_index_reads_written(items: Seq<(Coordinate, Seq<u8>)>)
    requires
        writable(items),
        serialize(items).len() <= usize::MAX,
    ensures
        index_entries(serialize(items)).len() == items.len(),
        forall|j: int|
            0 <= j < items.len() ==> (#[trigger] index_entries(serialize(items))[j]).0 == items[j].0
                && serialize(items).subrange(
                index_entries(serialize(items))[j].1.start as int,
                index_entries(serialize(items))[j].1.end as int,
            ) == items[j].1,
{
    let n = items.len() as int;
    let s = serialize(items);
    lemma_index_reads_kept(items);
    lemma_kept_all(items, n);
    assert forall|j: int| 0 <= j < n implies (#[trigger] index_entries(s)[j]).0 == items[j].0 && s.subrange(
        index_entries(s)[j].1.start as int,
        index_entries(s)[j].1.end as int,
    ) == items[j].1 by {
        assert(index_entries(s)[j] == written_entry(items, j));
        lemma_written_span(items, j);
    }
}

/// The span recorded for a coordinate that occurs once among the entries
/// is that entry's.
pub proof fn lemma_lookup_once(e: Seq<(Coordinate, ScrollSpan)>, j: int)
    requires
        0 <= j < e.len(),
        forall|k: int| 0 <= k < e.len() && k != j ==> (#[trigger] e[k]).0 != e[j].0,
    ensures
        lookup(e, e[j].0) == Some(e[j].1),
    decreases e.len(),
{
    if j != e.len() - 1 {
        let p = e.drop_last();
        assert(e.last().0 != e[j].0);
        assert forall|k: int| 0 <= k < p.len() && k != j implies (#[trigger] p[k]).0 != p[j].0 by {
            assert(p[k] == e[k]);
        }
        lemma_lookup_once(p, j);
        assert(p[j] == e[j]);
    }
}

/// Two strictly increasing lists with the same coordinates are the same
/// list.
pub proof fn lemma_sorted_same(a: Seq<Coordinate>, b: Seq<Coordinate>)
    requires
        strictly_sorted(a),
        strictly_sorted(b),
        forall|c: Coordinate| a.contains(c) <==> b.contains(c),
    ensures
        a == b,
    decreases a.len() + b.len(),
{
    if a.len() == 0 {
        if b.len() > 0 {
            assert(b.contains(b[0]));
        }
        assert(a =~= b);
    } else if b.len() == 0 {
        assert(a.contains(a[0]));
    } else {
        let x = a.last();
        let y = b.last();
        assert(a.contains(x));
        assert(b.contains(y));
        let i = choose|i: int| 0 <= i < b.len() && b[i] == x;
        let k = choose|k: int| 0 <= k < a.len() && a[k] == y;
        crate::coordinate::lemma_coord_order(x, y, x);
        if x != y {
            if i < b.len() - 1 {
                assert(coord_lt(b[i], b[b.len() - 1]));
            }
            if k < a.len() - 1 {
                assert(coord_lt(a[k], a[a.len() - 1]));
            }
        }
        assert(x == y);
        let a2 = a.drop_last();
        let b2 = b.drop_last();
        assert forall|c: Coordinate| a2.contains(c) <==> b2.contains(c) by {
            if a2.contains(c) {
                let p = choose|p: int| 0 <= p < a2.len() && a2[p] == c;
                assert(coord_lt(a[p], a[a.len() - 1]));
                assert(a.contains(c));
                let q = choose|q: int| 0 <= q < b.len() && b[q] == c;
                if q == b.len() - 1 {
                    crate::coordinate::lemma_coord_order(c, x, c);
                }
                assert(b2[q] == c);
            }
            if b2.contains(c) {
                let p = choose|p: int| 0 <= p < b2.len() && b2[p] == c;
                assert(coord_lt(b[p], b[b.len() - 1]));
                assert(b.contains(c));
                let q = choose|q: int| 0 <= q < a.len() && a[q] == c;
                if q == a.len() - 1 {
                    crate::coordinate::lemma_coord_order(c, x, c);
                }
                assert(a2[q] == c);
            }
        }
        lemma_sorted_same(a2, b2);
        assert(a =~= a2.push(x));
        assert(b =~= b2.push(y));
    }
}

/// A document opened on the bytes written for scrolls that phext can
/// carry, each holding valid UTF-8, shows exactly those scrolls; and
/// rebuilding its bytes from its scrolls in document order gives back the
/// bytes it was opened on.
pub proof fn lemma_fresh_document_roundtrip(m: MappedLattice, items: Seq<(Coordinate, Seq<u8>)>, s: Seq<Coordinate>)
    requires
        m.wf(),
        m.overlay_view().len() == 0,
        m.buffer() == serialize(items),
        writable(items),
        forall|i: int| 0 <= i < items.len() ==> valid_utf8(#[trigger] items[i].1),
        serialize(items).len() <= usize::MAX,
        strictly_sorted(s),
        forall|c: Coordinate| s.contains(c) <==> (m.content(c) is Some),
    ensures
        forall|j: int| 0 <= j < items.len() ==> m.content(#[trigger] items[j].0) == Some(decode_utf8(items[j].1)),
        serialize(m.items(s)) == m.buffer(),
{
    let b = serialize(items);
    let e = index_entries(b);
    lemma_index_reads_written(items);
    let cs = items.map_values(|p: (Coordinate, Seq<u8>)| p.0);
    assert(coords_of(e) =~= cs);
    assert forall|j: int| 0 <= j < items.len() implies m.content(#[trigger] items[j].0) == Some(decode_utf8(items[j].1)) by {
        assert forall|k: int| 0 <= k < e.len() && k != j implies (#[trigger] e[k]).0 != e[j].0 by {
            if k < j {
                assert(coord_lt(items[k].0, items[j].0));
            } else {
                assert(coord_lt(items[j].0, items[k].0));
            }
            crate::coordinate::lemma_coord_order(items[j].0, items[k].0, items[j].0);
        }
        lemma_lookup_once(e, j);
        assert(e[j].0 == items[j].0);
    }
    assert forall|c: Coordinate| s.contains(c) <==> cs.contains(c) by {
        lemma_lookup_some_iff(e, c);
    }
    assert(strictly_sorted(cs)) by {
        assert forall|i: int, j: int| 0 <= i < j < cs.len() implies coord_lt(#[trigger] cs[i], #[trigger] cs[j]) by {
            assert(coord_lt(items[i].0, items[j].0));
        }
    }
    lemma_sorted_same(s, cs);
    assert forall|j: int| 0 <= j < items.len() implies #[trigger] m.items(s)[j] == items[j] by {
        assert(s[j] == items[j].0);
        vstd::utf8::decode_utf8_encode_utf8(items[j].1);
    }
    assert(m.items(s) =~= items);
}

/// What a save gives back: a document opened on the bytes another document
/// rebuilds from its scrolls (edits included) shows exactly the scrolls of
/// the first that hold text, when every scroll is free of delimiter bytes
/// and within the range delimiters reach; an empty scroll is not kept.
pub proof fn lemma_saved_document_reads_back(m: MappedLattice, s: Seq<Coordinate>, saved: MappedLattice)
    requires
        m.wf(),
        strictly_sorted(s),
        forall|c: Coordinate| s.contains(c) <==> (m.content(c) is Some),
        carriable(m.items(s)),
        serialize(m.items(s)).len() <= usize::MAX,
        saved.wf(),
        saved.overlay_view().len() == 0,
        saved.buffer() == serialize(m.items(s)),
    ensures
        forall|c: Coordinate| #[trigger] saved.content(c) == if m.content(c) == Some(Seq::<char>::empty()) {
            None
        } else {
            m.content(c)
        },
{
    let items = m.items(s);
    let b = serialize(items);
    let n = items.len() as int;
    lemma_index_reads_kept(items);
    assert forall|c: Coordinate| #[trigger] saved.content(c) == if m.content(c) == Some(Seq::<char>::empty()) {
        None
    } else {
        m.content(c)
    } by {
        lemma_kept_lookup(items, n, c);
        assert(crate::mmap::overlay_get(saved.overlay_view(), c) is None);
        if s.contains(c) {
            let j = choose|j: int| 0 <= j < s.len() && s[j] == c;
            assert(items[j].0 == c);
            let t = m.content(c).unwrap();
            assert(items[j].1 == encode_utf8(t));
            vstd::utf8::encode_utf8_valid_utf8(t);
            vstd::utf8::encode_utf8_decode_utf8(t);
            if items[j].1.len() > 0 {
                lemma_written_span(items, j);
                assert(t.len() > 0) by {
                    if t.len() == 0 {
                        assert(t =~= Seq::<char>::empty());
                        assert(encode_utf8(t).len() == 0);
                    }
                }
                assert(t != Seq::<char>::empty());
            } else {
                assert(items[j].1 =~= Seq::<u8>::empty());
                assert(vstd::utf8::decode_utf8(items[j].1).len() == 0);
                assert(t =~= Seq::<char>::empty());
            }
        } else {
            assert forall|j: int| 0 <= j < n implies #[trigger] items[j].0 != c by {
                assert(items[j].0 == s[j]);
                assert(s.contains(s[j]));
            }
        }
    }
}

/// A document opened on the phext bytes of another shows the scrolls of
/// the first: exactly, when nothing was edited; after edits, every scroll
/// that holds text, when every scroll is free of delimiter bytes and
/// within the range delimiters reach (an empty scroll is not kept).
pub proof fn lemma_phext_bytes_read_back(m: MappedLattice, s: Seq<Coordinate>, saved: MappedLattice)
    requires
        m.wf(),
        strictly_sorted(s),
        forall|c: Coordinate| s.contains(c) <==> (m.content(c) is Some),
        m.overlay_view().len() > 0 ==> carriable(m.items(s)),
        m.phext_bytes_spec().len() <= usize::MAX,
        saved.wf(),
        saved.overlay_view().len() == 0,
        saved.buffer() == m.phext_bytes_spec(),
    ensures
        m.overlay_view().len() == 0 ==> forall|c: Coordinate| #[trigger] saved.content(c) == m.content(c),
        m.overlay_view().len() > 0 ==> forall|c: Coordinate| #[trigger] saved.content(c) == if m.content(c) == Some(
            Seq::<char>::empty(),
        ) {
            None
        } else {
            m.content(c)
        },
{
    if m.overlay_view().len() == 0 {
        assert forall|c: Coordinate| #[trigger] saved.content(c) == m.content(c) by {
            assert(saved.index_view() == m.index_view());
        }
    } else {
        let p = m.populated_spec();
        assert(strictly_sorted(p) && forall|c: Coordinate| p.contains(c) <==> (m.content(c) is Some));
        lemma_sorted_same(s, p);
        lemma_saved_document_reads_back(m, s, saved);
    }
}

} // verus!
