//! Reading back the work phext of an undo history.
//!
//! The work phext is written the way a document is: each edit record at
//! its work coordinate, reached by every delimiter that leads there, so
//! the history read back is the one written.
use vstd::prelude::*;

use crate::coordinate::{base_coordinate, coord_lt, lemma_coord_order, Coordinate, XCoordinate};
use crate::index::{coords_of, in_delimiter_range, index_entries, is_delimiter};
use crate::record_laws::{body_reads_back, lemma_record_roundtrip};
use crate::serial_laws::{lemma_index_reads_written, lemma_lookup_once, writable};
use vstd::utf8::valid_utf8;
use crate::mmap::serialize;
use crate::undo::{
    appended, engine_wf, find_stack, from_scroll_spec, history_of, history_pushed,
    insertion_point, load_step, loaded, sort_entries, source_coordinate_spec, with_history, EngineView, HistoryView,
    scroll_record, stack_entries, work_coordinate_spec, work_entries, RecordView,
};

verus! {

/// An entry goes in at most at the end.
proof fn lemma_insertion_point(s: Seq<(Coordinate, Seq<u8>)>, c: Coordinate)
    ensures
        insertion_point(s, c) <= s.len(),
    decreases s.len(),
{
    if s.len() > 0 {
        lemma_insertion_point(s.drop_last(), c);
    }
}

/// Sorting keeps the number of entries and which entries there are.
proof fn lemma_sort_entries(s: Seq<(Coordinate, Seq<u8>)>)
    ensures
        sort_entries(s).len() == s.len(),
        forall|x: (Coordinate, Seq<u8>)| #[trigger] sort_entries(s).contains(x) <==> s.contains(x),
    decreases s.len(),
{
    if s.len() > 0 {
        let p = s.drop_last();
        let x = s.last();
        lemma_sort_entries(p);
        let t = sort_entries(p);
        let k = insertion_point(t, x.0) as int;
        lemma_insertion_point(t, x.0);
        t.insert_ensures(k, x);
        let u = t.insert(k, x);
        assert(sort_entries(s) == u);
        assert forall|y: (Coordinate, Seq<u8>)| #[trigger] u.contains(y) <==> s.contains(y) by {
            if u.contains(y) {
                let i = choose|i: int| 0 <= i < u.len() && u[i] == y;
                if i < k {
                    assert(t[i] == y);
                    assert(t.contains(y));
                    let j = choose|j: int| 0 <= j < p.len() && p[j] == y;
                    assert(s[j] == y);
                } else if i == k {
                    assert(s[s.len() - 1] == y);
                } else {
                    assert(t[i - 1] == y);
                    assert(t.contains(y));
                    let j = choose|j: int| 0 <= j < p.len() && p[j] == y;
                    assert(s[j] == y);
                }
            }
            if s.contains(y) {
                let j = choose|j: int| 0 <= j < s.len() && s[j] == y;
                if j == s.len() - 1 {
                    assert(u[k] == y);
                } else {
                    assert(p[j] == y);
                    assert(p.contains(y));
                    assert(t.contains(y));
                    let i = choose|i: int| 0 <= i < t.len() && t[i] == y;
                    if i < k {
                        assert(u[i] == y);
                    } else {
                        assert(u[i + 1] == y);
                    }
                }
            }
        }
    }
}

/// Whether no two entries share a coordinate.
pub open spec fn coords_distinct(s: Seq<(Coordinate, Seq<u8>)>) -> bool {
    forall|i: int, j: int| 0 <= i < j < s.len() ==> (#[trigger] s[i]).0 != (#[trigger] s[j]).0
}

/// Whether the entries' coordinates never go back.
pub open spec fn coords_ascending(s: Seq<(Coordinate, Seq<u8>)>) -> bool {
    forall|i: int, j: int| 0 <= i < j < s.len() ==> !coord_lt((#[trigger] s[j]).0, (#[trigger] s[i]).0)
}

/// An entry at `c` goes in after every entry not after `c` and before the
/// entries after it.
proof fn lemma_insertion_order(t: Seq<(Coordinate, Seq<u8>)>, c: Coordinate)
    ensures
        forall|q: int| insertion_point(t, c) <= q < t.len() ==> coord_lt(c, #[trigger] t[q].0),
        insertion_point(t, c) > 0 ==> !coord_lt(c, t[insertion_point(t, c) - 1].0),
    decreases t.len(),
{
    if t.len() > 0 && coord_lt(c, t.last().0) {
        let p = t.drop_last();
        lemma_insertion_order(p, c);
        lemma_insertion_point(p, c);
        assert forall|q: int| insertion_point(t, c) <= q < t.len() implies coord_lt(c, #[trigger] t[q].0) by {
            if q < p.len() {
                assert(t[q] == p[q]);
            }
        }
        if insertion_point(t, c) > 0 {
            assert(t[insertion_point(t, c) - 1] == p[insertion_point(p, c) - 1]);
        }
    }
}

/// Sorting puts the coordinates in ascending order and, when they are
/// distinct, keeps them distinct.
proof fn lemma_sort_order(s: Seq<(Coordinate, Seq<u8>)>)
    ensures
        coords_ascending(sort_entries(s)),
        coords_distinct(s) ==> coords_distinct(sort_entries(s)),
    decreases s.len(),
{
    if s.len() > 0 {
        let p = s.drop_last();
        let x = s.last();
        lemma_sort_order(p);
        lemma_sort_entries(p);
        let t = sort_entries(p);
        let k = insertion_point(t, x.0) as int;
        lemma_insertion_point(t, x.0);
        lemma_insertion_order(t, x.0);
        t.insert_ensures(k, x);
        let u = t.insert(k, x);
        assert(sort_entries(s) == u);
        assert forall|i: int, j: int| 0 <= i < j < u.len() implies !coord_lt((#[trigger] u[j]).0, (#[trigger] u[i]).0) by {
            if j < k {
                assert(u[i] == t[i] && u[j] == t[j]);
            } else if j == k {
                assert(u[i] == t[i]);
                lemma_coord_order(x.0, t[i].0, t[k - 1].0);
                lemma_coord_order(t[i].0, t[k - 1].0, x.0);
                if i < k - 1 {
                    assert(!coord_lt(t[k - 1].0, t[i].0));
                }
            } else if i > k {
                assert(u[i] == t[i - 1] && u[j] == t[j - 1]);
            } else if i == k {
                assert(u[j] == t[j - 1]);
                assert(coord_lt(x.0, t[j - 1].0));
                lemma_coord_order(x.0, t[j - 1].0, x.0);
            } else {
                assert(u[i] == t[i] && u[j] == t[j - 1]);
            }
        }
        if coords_distinct(s) {
            assert(coords_distinct(p)) by {
                assert forall|i: int, j: int| 0 <= i < j < p.len() implies (#[trigger] p[i]).0 != (#[trigger] p[j]).0 by {
                    assert(p[i] == s[i] && p[j] == s[j]);
                }
            }
            assert forall|q: int| 0 <= q < t.len() implies (#[trigger] t[q]).0 != x.0 by {
                assert(t.contains(t[q]));
                let m = choose|m: int| 0 <= m < p.len() && p[m] == t[q];
                assert(s[m] == p[m]);
                assert(s[s.len() - 1] == x);
            }
            assert forall|i: int, j: int| 0 <= i < j < u.len() implies (#[trigger] u[i]).0 != (#[trigger] u[j]).0 by {
                if j < k {
                    assert(u[i] == t[i] && u[j] == t[j]);
                } else if j == k {
                    assert(u[i] == t[i]);
                } else if i > k {
                    assert(u[i] == t[i - 1] && u[j] == t[j - 1]);
                } else if i == k {
                    assert(u[j] == t[j - 1]);
                } else {
                    assert(u[i] == t[i] && u[j] == t[j - 1]);
                }
            }
        }
    }
}

/// The work entries of stacks for distinct scrolls with the X arm `1.1.1`
/// and increasing sequence numbers have distinct coordinates.
proof fn lemma_work_distinct(s: Seq<(Coordinate, HistoryView)>)
    requires
        forall|i: int, j: int| 0 <= i < j < s.len() ==> (#[trigger] s[i]).0 != (#[trigger] s[j]).0,
        forall|i: int| 0 <= i < s.len() ==> stack_persists(#[trigger] s[i].0, s[i].1),
    ensures
        coords_distinct(work_entries(s)),
    decreases s.len(),
{
    if s.len() > 0 {
        let p = s.drop_last();
        let last = s.last();
        assert forall|i: int, j: int| 0 <= i < j < p.len() implies (#[trigger] p[i]).0 != (#[trigger] p[j]).0 by {
            assert(p[i] == s[i] && p[j] == s[j]);
        }
        assert forall|i: int| 0 <= i < p.len() implies stack_persists(#[trigger] p[i].0, p[i].1) by {
            assert(p[i] == s[i]);
        }
        lemma_work_distinct(p);
        lemma_work_entries(p);
        let a = work_entries(p);
        assert(stack_persists(s[s.len() - 1].0, s[s.len() - 1].1));
        lemma_stack_entries(last.0, last.1);
        let b = stack_entries(last.0, last.1.records);
        let w = a + b;
        assert(work_entries(s) == w);
        assert forall|i: int, j: int| 0 <= i < j < w.len() implies (#[trigger] w[i]).0 != (#[trigger] w[j]).0 by {
            if j < a.len() {
                assert(w[i] == a[i] && w[j] == a[j]);
            } else if i >= a.len() {
                assert(w[i] == b[i - a.len()] && w[j] == b[j - a.len()]);
                lemma_coord_order(b[i - a.len()].0, b[j - a.len()].0, b[i - a.len()].0);
            } else {
                assert(w[i] == a[i] && w[j] == b[j - a.len()]);
                assert(a.contains(a[i]));
                let (jj, kk) = choose|jj: int, kk: int|
                    0 <= jj < p.len() && 0 <= kk < p[jj].1.records.len() && a[i] == #[trigger] entry_of(
                        p[jj].0,
                        p[jj].1.records[kk],
                    );
                assert(p[jj] == s[jj]);
                assert(stack_persists(s[jj].0, s[jj].1));
                assert(s[jj].0 != s[s.len() - 1].0);
            }
        }
    }
}

/// The record a work-phext entry reads back as: the edit and cursors its
/// text gives, under the scroll its coordinate belongs to, with the
/// chapter as sequence number.
pub open spec fn entry_record(e: (Coordinate, Seq<u8>)) -> RecordView {
    let r = from_scroll_spec(e.1).unwrap();
    RecordView { target: source_coordinate_spec(e.0), op: r.0, before: r.1, after: r.2, sequence: e.0.x.chapter }
}

/// The history built by recording every entry's record in turn.
pub open spec fn replayed(e: Seq<(Coordinate, Seq<u8>)>) -> EngineView
    decreases e.len(),
{
    if e.len() == 0 {
        EngineView { stacks: seq![], global: 0 }
    } else {
        let r = entry_record(e.last());
        appended(replayed(e.drop_last()), r.target, r.op, r.before, r.after, r.sequence)
    }
}

/// The entries that belong to scroll `c`, in order.
pub open spec fn entries_for(e: Seq<(Coordinate, Seq<u8>)>, c: Coordinate) -> Seq<(Coordinate, Seq<u8>)>
    decreases e.len(),
{
    if e.len() == 0 {
        seq![]
    } else if source_coordinate_spec(e.last().0) == c {
        entries_for(e.drop_last(), c).push(e.last())
    } else {
        entries_for(e.drop_last(), c)
    }
}

/// Setting one scroll's history leaves every other scroll's history as it
/// was.
proof fn lemma_history_other(v: EngineView, c: Coordinate, h: HistoryView, g: nat, o: Coordinate)
    requires
        o != c,
    ensures
        history_of(EngineView { stacks: with_history(v, c, h), global: g }, o) == history_of(v, o),
{
    let s = v.stacks;
    crate::undo::lemma_find_stack(s, c);
    let s2 = with_history(v, c, h);
    lemma_find_same(s, s2, o);
    crate::undo::lemma_find_stack(s, o);
    match find_stack(s, o) {
        Some(i) => {
            assert(s2[i] == s[i]);
        },
        None => {},
    }
}

/// Stacks that agree everywhere but at entries of another scroll are
/// searched alike: `s2` is `s` with its entries of scroll `c` replaced,
/// or with one more at the end.
proof fn lemma_find_same(s: Seq<(Coordinate, HistoryView)>, s2: Seq<(Coordinate, HistoryView)>, o: Coordinate)
    requires
        s2.len() == s.len() || s2.len() == s.len() + 1,
        forall|i: int| 0 <= i < s.len() ==> (#[trigger] s2[i]).0 == s[i].0,
        forall|i: int| 0 <= i < s.len() && s[i].0 == o ==> #[trigger] s2[i] == s[i],
        s2.len() == s.len() + 1 ==> s2.last().0 != o,
    ensures
        find_stack(s2, o) == find_stack(s, o),
    decreases s2.len(),
{
    if s2.len() == s.len() + 1 {
        assert(s2.drop_last().len() == s.len());
        assert forall|i: int| 0 <= i < s.len() implies (#[trigger] s2.drop_last()[i]).0 == s[i].0 by {
            assert(s2.drop_last()[i] == s2[i]);
        }
        assert forall|i: int| 0 <= i < s.len() && s[i].0 == o implies #[trigger] s2.drop_last()[i] == s[i] by {
            assert(s2.drop_last()[i] == s2[i]);
        }
        lemma_find_same(s, s2.drop_last(), o);
    } else if s.len() > 0 {
        let p = s.drop_last();
        let p2 = s2.drop_last();
        assert forall|i: int| 0 <= i < p.len() implies (#[trigger] p2[i]).0 == p[i].0 by {
            assert(p2[i] == s2[i] && p[i] == s[i]);
        }
        assert forall|i: int| 0 <= i < p.len() && p[i].0 == o implies #[trigger] p2[i] == p[i] by {
            assert(p2[i] == s2[i] && p[i] == s[i]);
        }
        lemma_find_same(p, p2, o);
        assert(s2.last().0 == s.last().0);
    }
}

/// The history replayed from entries: each scroll's records are those of
/// its entries, in order, all in effect; one edit counted per entry.
proof fn lemma_replayed_history(e: Seq<(Coordinate, Seq<u8>)>, c: Coordinate)
    ensures
        history_of(replayed(e), c) == (HistoryView {
            records: entries_for(e, c).map_values(|x: (Coordinate, Seq<u8>)| entry_record(x)),
            cursor: entries_for(e, c).len(),
        }),
        replayed(e).global == e.len(),
    decreases e.len(),
{
    if e.len() == 0 {
        assert(entries_for(e, c).map_values(|x: (Coordinate, Seq<u8>)| entry_record(x)) =~= Seq::<RecordView>::empty());
        assert(find_stack(Seq::<(Coordinate, HistoryView)>::empty(), c) is None);
    } else {
        let p = e.drop_last();
        lemma_replayed_history(p, c);
        let v = replayed(p);
        let r = entry_record(e.last());
        let t = r.target;
        if t == c {
            lemma_replayed_history(p, t);
            let h = history_of(v, t);
            let h2 = history_pushed(h, RecordView { target: t, op: r.op, before: r.before, after: r.after, sequence: r.sequence });
            crate::undo::lemma_history_set(v, t, h2, v.global + 1);
            assert(h.records.take(h.cursor as int) =~= h.records);
            assert(entries_for(e, c) == entries_for(p, c).push(e.last()));
            assert(entries_for(e, c).map_values(|x: (Coordinate, Seq<u8>)| entry_record(x)) =~= entries_for(
                p,
                c,
            ).map_values(|x: (Coordinate, Seq<u8>)| entry_record(x)).push(r));
        } else {
            let h = history_of(v, t);
            let h2 = history_pushed(h, RecordView { target: t, op: r.op, before: r.before, after: r.after, sequence: r.sequence });
            lemma_history_other(v, t, h2, v.global + 1, c);
            assert(entries_for(e, c) == entries_for(p, c));
        }
    }
}

/// Reading the first `k` scrolls of the bytes written for entries that
/// phext can carry, each a valid UTF-8 edit record, replays their records.
proof fn lemma_loaded_replayed(t: Seq<(Coordinate, Seq<u8>)>, k: nat)
    requires
        writable(t),
        serialize(t).len() <= usize::MAX,
        forall|i: int| 0 <= i < t.len() ==> valid_utf8(#[trigger] t[i].1) && from_scroll_spec(t[i].1) is Some,
        k <= t.len(),
    ensures
        loaded(serialize(t), k) == replayed(t.take(k as int)),
    decreases k,
{
    let b = serialize(t);
    let e = index_entries(b);
    if k == 0 {
        assert(t.take(0) =~= Seq::<(Coordinate, Seq<u8>)>::empty());
    } else {
        lemma_loaded_replayed(t, (k - 1) as nat);
        lemma_index_reads_written(t);
        let j = k - 1;
        let c = t[j].0;
        assert(coords_of(e)[j] == c);
        assert forall|i: int| 0 <= i < e.len() && i != j implies (#[trigger] e[i]).0 != e[j].0 by {
            if i < j {
                assert(coord_lt(t[i].0, t[j].0));
            } else {
                assert(coord_lt(t[j].0, t[i].0));
            }
            lemma_coord_order(t[i].0, t[j].0, t[i].0);
        }
        lemma_lookup_once(e, j);
        let sb = b.subrange(e[j].1.start as int, e[j].1.end as int);
        assert(sb == t[j].1);
        assert(load_step(b, loaded(b, (k - 1) as nat), c) == replayed(t.take(k as int))) by {
            assert(t.take(k as int).drop_last() =~= t.take(k - 1));
            assert(t.take(k as int).last() == t[j]);
        }
    }
}

/// The work-phext entry of record `r` of scroll `c`.
pub open spec fn entry_of(c: Coordinate, r: RecordView) -> (Coordinate, Seq<u8>) {
    (work_coordinate_spec(c, r.sequence), scroll_record(r.op, r.before, r.after))
}

/// The number of records in all stacks.
pub open spec fn record_count(s: Seq<(Coordinate, HistoryView)>) -> nat
    decreases s.len(),
{
    if s.len() == 0 {
        0
    } else {
        record_count(s.drop_last()) + s.last().1.records.len()
    }
}

/// Whether `x` is the entry of some record of some stack.
pub open spec fn in_stacks(s: Seq<(Coordinate, HistoryView)>, x: (Coordinate, Seq<u8>)) -> bool {
    exists|j: int, k: int|
        0 <= j < s.len() && 0 <= k < s[j].1.records.len() && x == #[trigger] entry_of(s[j].0, s[j].1.records[k])
}

/// The work entries are the entries of the stacks' records, one per record.
proof fn lemma_work_entries(s: Seq<(Coordinate, HistoryView)>)
    ensures
        work_entries(s).len() == record_count(s),
        forall|x: (Coordinate, Seq<u8>)| #[trigger] work_entries(s).contains(x) <==> in_stacks(s, x),
    decreases s.len(),
{
    if s.len() > 0 {
        let p = s.drop_last();
        lemma_work_entries(p);
        let a = work_entries(p);
        let last = s.last();
        let b = stack_entries(last.0, last.1.records);
        assert(work_entries(s) == a + b);
        assert forall|x: (Coordinate, Seq<u8>)| #[trigger] work_entries(s).contains(x) <==> in_stacks(s, x) by {
            let w = a + b;
            if w.contains(x) {
                let i = choose|i: int| 0 <= i < w.len() && w[i] == x;
                if i < a.len() {
                    assert(a[i] == x);
                    assert(a.contains(x));
                    let (j, k) = choose|j: int, k: int|
                        0 <= j < p.len() && 0 <= k < p[j].1.records.len() && x == #[trigger] entry_of(
                            p[j].0,
                            p[j].1.records[k],
                        );
                    assert(p[j] == s[j]);
                    assert(x == entry_of(s[j].0, s[j].1.records[k]));
                } else {
                    let k = i - a.len();
                    assert(b[k] == x);
                    assert(x == entry_of(s[s.len() - 1].0, s[s.len() - 1].1.records[k]));
                }
            }
            if in_stacks(s, x) {
                let (j, k) = choose|j: int, k: int|
                    0 <= j < s.len() && 0 <= k < s[j].1.records.len() && x == #[trigger] entry_of(
                        s[j].0,
                        s[j].1.records[k],
                    );
                if j < p.len() {
                    assert(p[j] == s[j]);
                    assert(x == entry_of(p[j].0, p[j].1.records[k]));
                    assert(in_stacks(p, x));
                    assert(a.contains(x));
                    let i = choose|i: int| 0 <= i < a.len() && a[i] == x;
                    assert(w[i] == x);
                } else {
                    assert(b[k] == x);
                    assert(w[a.len() + k] == x);
                }
            }
        }
    } else {
        assert(forall|x: (Coordinate, Seq<u8>)| !in_stacks(s, x));
    }
}

/// The entries of scroll `c` in a strictly increasing list are strictly
/// increasing, and they are the list's entries that belong to `c`.
proof fn lemma_entries_for(t: Seq<(Coordinate, Seq<u8>)>, c: Coordinate)
    requires
        forall|i: int, j: int| 0 <= i < j < t.len() ==> coord_lt(#[trigger] t[i].0, #[trigger] t[j].0),
    ensures
        forall|i: int, j: int|
            0 <= i < j < entries_for(t, c).len() ==> coord_lt(
                #[trigger] entries_for(t, c)[i].0,
                #[trigger] entries_for(t, c)[j].0,
            ),
        forall|x: (Coordinate, Seq<u8>)|
            #[trigger] entries_for(t, c).contains(x) <==> (t.contains(x) && source_coordinate_spec(x.0) == c),
    decreases t.len(),
{
    if t.len() > 0 {
        let p = t.drop_last();
        assert forall|i: int, j: int| 0 <= i < j < p.len() implies coord_lt(#[trigger] p[i].0, #[trigger] p[j].0) by {
            assert(p[i] == t[i] && p[j] == t[j]);
        }
        lemma_entries_for(p, c);
        let f = entries_for(p, c);
        assert forall|x: (Coordinate, Seq<u8>)| #[trigger] p.contains(x) implies coord_lt(x.0, t.last().0) by {
            let i = choose|i: int| 0 <= i < p.len() && p[i] == x;
            assert(t[i] == x);
        }
        assert forall|x: (Coordinate, Seq<u8>)| #[trigger] t.contains(x) <==> (p.contains(x) || x == t.last()) by {
            if t.contains(x) {
                let i = choose|i: int| 0 <= i < t.len() && t[i] == x;
                if i < p.len() {
                    assert(p[i] == x);
                }
            }
            if p.contains(x) {
                let i = choose|i: int| 0 <= i < p.len() && p[i] == x;
                assert(t[i] == x);
            }
            if x == t.last() {
                assert(t[t.len() - 1] == x);
            }
        }
        if source_coordinate_spec(t.last().0) == c {
            let g = f.push(t.last());
            assert(entries_for(t, c) == g);
            assert forall|i: int, j: int| 0 <= i < j < g.len() implies coord_lt(#[trigger] g[i].0, #[trigger] g[j].0) by {
                if j == g.len() - 1 {
                    assert(f.contains(f[i]));
                    assert(p.contains(g[i]));
                } else {
                    assert(g[i] == f[i] && g[j] == f[j]);
                }
            }
            assert forall|x: (Coordinate, Seq<u8>)| #[trigger] g.contains(x) <==> (t.contains(x) && source_coordinate_spec(x.0) == c) by {
                if g.contains(x) {
                    let i = choose|i: int| 0 <= i < g.len() && g[i] == x;
                    if i < f.len() {
                        assert(f[i] == x);
                        assert(f.contains(x));
                    }
                }
                if t.contains(x) && source_coordinate_spec(x.0) == c {
                    if x == t.last() {
                        assert(g[g.len() - 1] == x);
                    } else {
                        assert(f.contains(x));
                        let i = choose|i: int| 0 <= i < f.len() && f[i] == x;
                        assert(g[i] == x);
                    }
                }
            }
        } else {
            assert(entries_for(t, c) == f);
        }
    }
}

/// Two strictly increasing lists of entries with the same entries are the
/// same list.
proof fn lemma_entries_same(a: Seq<(Coordinate, Seq<u8>)>, b: Seq<(Coordinate, Seq<u8>)>)
    requires
        forall|i: int, j: int| 0 <= i < j < a.len() ==> coord_lt(#[trigger] a[i].0, #[trigger] a[j].0),
        forall|i: int, j: int| 0 <= i < j < b.len() ==> coord_lt(#[trigger] b[i].0, #[trigger] b[j].0),
        forall|x: (Coordinate, Seq<u8>)| a.contains(x) <==> b.contains(x),
    ensures
        a == b,
    decreases a.len() + b.len(),
{
    if a.len() == 0 {
        if b.len() > 0 {
            assert(b.contains(b[0]));
        }
        assert(a =~= b);
    } else if b.len() == 0 {
        assert(a.contains(a[0]));
    } else {
        let x = a.last();
        let y = b.last();
        assert(a.contains(x));
        assert(b.contains(y));
        let i = choose|i: int| 0 <= i < b.len() && b[i] == x;
        let k = choose|k: int| 0 <= k < a.len() && a[k] == y;
        lemma_coord_order(x.0, y.0, x.0);
        if i < b.len() - 1 {
            assert(coord_lt(b[i].0, b[b.len() - 1].0));
        }
        if k < a.len() - 1 {
            assert(coord_lt(a[k].0, a[a.len() - 1].0));
        }
        assert(x == y);
        let a2 = a.drop_last();
        let b2 = b.drop_last();
        assert forall|z: (Coordinate, Seq<u8>)| a2.contains(z) <==> b2.contains(z) by {
            if a2.contains(z) {
                let p = choose|p: int| 0 <= p < a2.len() && a2[p] == z;
                assert(coord_lt(a[p].0, a[a.len() - 1].0));
                assert(a.contains(z));
                let q = choose|q: int| 0 <= q < b.len() && b[q] == z;
                if q == b.len() - 1 {
                    lemma_coord_order(z.0, x.0, z.0);
                }
                assert(b2[q] == z);
            }
            if b2.contains(z) {
                let p = choose|p: int| 0 <= p < b2.len() && b2[p] == z;
                assert(coord_lt(b[p].0, b[b.len() - 1].0));
                assert(b.contains(z));
                let q = choose|q: int| 0 <= q < a.len() && a[q] == z;
                if q == a.len() - 1 {
                    lemma_coord_order(z.0, x.0, z.0);
                }
                assert(a2[q] == z);
            }
        }
        assert forall|i: int, j: int| 0 <= i < j < a2.len() implies coord_lt(#[trigger] a2[i].0, #[trigger] a2[j].0) by {
            assert(a2[i] == a[i] && a2[j] == a[j]);
        }
        assert forall|i: int, j: int| 0 <= i < j < b2.len() implies coord_lt(#[trigger] b2[i].0, #[trigger] b2[j].0) by {
            assert(b2[i] == b[i] && b2[j] == b[j]);
        }
        lemma_entries_same(a2, b2);
        assert(a =~= a2.push(x));
        assert(b =~= b2.push(y));
    }
}

/// Whether a record's text is one the work phext carries and reads back:
/// valid UTF-8 without delimiter bytes, cursor positions that can be
/// counted from 1, and an edit whose content reads back.
pub open spec fn record_keeps(r: RecordView) -> bool {
    let t = scroll_record(r.op, r.before, r.after);
    &&& valid_utf8(t)
    &&& forall|k: int| 0 <= k < t.len() ==> !is_delimiter(#[trigger] t[k])
    &&& r.before.line < usize::MAX
    &&& r.before.col < usize::MAX
    &&& r.after.line < usize::MAX
    &&& r.after.col < usize::MAX
    &&& body_reads_back(r.op)
}

/// Whether the stack of scroll `c` can be written to the work phext and
/// read back: `c` has the X arm `1.1.1` (the work phext keeps only a
/// scroll's Z and Y arms), every edit is in effect, every record belongs
/// to `c` and keeps, and sequence numbers increase along the stack.
pub open spec fn stack_persists(c: Coordinate, h: HistoryView) -> bool {
    &&& c.x == (XCoordinate { chapter: 1, section: 1, scroll: 1 })
    &&& h.cursor == h.records.len()
    &&& forall|k: int| 0 <= k < h.records.len() ==> (#[trigger] h.records[k]).target == c && record_keeps(h.records[k])
    &&& forall|k: int, l: int|
        0 <= k < l < h.records.len() ==> (#[trigger] h.records[k]).sequence < (#[trigger] h.records[l]).sequence
}

/// The entries of a persisting stack are strictly increasing and read back
/// as its records.
proof fn lemma_stack_entries(c: Coordinate, h: HistoryView)
    requires
        stack_persists(c, h),
    ensures
        forall|i: int, j: int|
            0 <= i < j < stack_entries(c, h.records).len() ==> coord_lt(
                #[trigger] stack_entries(c, h.records)[i].0,
                #[trigger] stack_entries(c, h.records)[j].0,
            ),
        stack_entries(c, h.records).map_values(|x: (Coordinate, Seq<u8>)| entry_record(x)) == h.records,
{
    let e = stack_entries(c, h.records);
    assert forall|i: int, j: int| 0 <= i < j < e.len() implies coord_lt(#[trigger] e[i].0, #[trigger] e[j].0) by {
        assert(h.records[i].sequence < h.records[j].sequence);
    }
    let m = e.map_values(|x: (Coordinate, Seq<u8>)| entry_record(x));
    assert forall|k: int| 0 <= k < h.records.len() implies #[trigger] m[k] == h.records[k] by {
        let r = h.records[k];
        assert(record_keeps(r));
        lemma_record_roundtrip(r.op, r.before, r.after);
        assert(e[k] == entry_of(c, r));
    }
    assert(m =~= h.records);
}

/// The entries of scroll `c` among all sorted work entries read back as
/// the history of `c`, when every stack persists.
proof fn lemma_target_entries(v: EngineView, t: Seq<(Coordinate, Seq<u8>)>, c: Coordinate)
    requires
        engine_wf(v),
        forall|i: int| 0 <= i < v.stacks.len() ==> stack_persists(#[trigger] v.stacks[i].0, v.stacks[i].1),
        forall|i: int, j: int| 0 <= i < j < t.len() ==> coord_lt(#[trigger] t[i].0, #[trigger] t[j].0),
        forall|x: (Coordinate, Seq<u8>)| #[trigger] t.contains(x) <==> in_stacks(v.stacks, x),
    ensures
        entries_for(t, c).map_values(|x: (Coordinate, Seq<u8>)| entry_record(x)) == history_of(v, c).records,
        entries_for(t, c).len() == history_of(v, c).cursor,
{
    let s = v.stacks;
    lemma_entries_for(t, c);
    let f = entries_for(t, c);
    crate::undo::lemma_find_stack(s, c);
    match find_stack(s, c) {
        Some(i) => {
            let h = s[i].1;
            assert(stack_persists(s[i].0, h));
            lemma_stack_entries(c, h);
            let g = stack_entries(c, h.records);
            assert forall|x: (Coordinate, Seq<u8>)| f.contains(x) <==> g.contains(x) by {
                if f.contains(x) {
                    assert(t.contains(x) && source_coordinate_spec(x.0) == c);
                    assert(in_stacks(s, x));
                    let (j, k) = choose|j: int, k: int|
                        0 <= j < s.len() && 0 <= k < s[j].1.records.len() && x == #[trigger] entry_of(
                            s[j].0,
                            s[j].1.records[k],
                        );
                    assert(stack_persists(s[j].0, s[j].1));
                    assert(source_coordinate_spec(x.0) == s[j].0);
                    if j != i {
                        assert(s[j].0 != s[i].0);
                    }
                    assert(g[k] == x);
                }
                if g.contains(x) {
                    let k = choose|k: int| 0 <= k < g.len() && g[k] == x;
                    assert(x == entry_of(s[i].0, s[i].1.records[k]));
                    assert(in_stacks(s, x));
                    assert(t.contains(x));
                }
            }
            lemma_entries_same(f, g);
        },
        None => {
            assert(f.len() == 0) by {
                if f.len() > 0 {
                    let x = f[0];
                    assert(f.contains(x));
                    assert(t.contains(x));
                    let (j, k) = choose|j: int, k: int|
                        0 <= j < s.len() && 0 <= k < s[j].1.records.len() && x == #[trigger] entry_of(
                            s[j].0,
                            s[j].1.records[k],
                        );
                    assert(stack_persists(s[j].0, s[j].1));
                    assert(s[j].0 == c);
                }
            }
            assert(f.map_values(|x: (Coordinate, Seq<u8>)| entry_record(x)) =~= Seq::<RecordView>::empty());
        },
    }
}

/// Whether every record's work coordinate lies in the range delimiters
/// reach.
pub open spec fn work_coordinates_in_range(v: EngineView) -> bool {
    forall|i: int, k: int|
        0 <= i < v.stacks.len() && 0 <= k < v.stacks[i].1.records.len() ==> in_delimiter_range(
            work_coordinate_spec(v.stacks[i].0, #[trigger] v.stacks[i].1.records[k].sequence),
        )
}

/// Reading back the work phext of a history gives the history again: every
/// scroll's edits, in order and all in effect, and the count of edits.
/// This holds when every stack persists (see `stack_persists`), the count
/// of edits is the number of records kept, every work coordinate lies in
/// the range delimiters reach, and the bytes fit in memory.
pub proof fn lemma_work_phext_roundtrip(v: EngineView)
    requires
        engine_wf(v),
        forall|i: int| 0 <= i < v.stacks.len() ==> stack_persists(#[trigger] v.stacks[i].0, v.stacks[i].1),
        v.global == record_count(v.stacks),
        work_coordinates_in_range(v),
        serialize(sort_entries(work_entries(v.stacks))).len() <= usize::MAX,
    ensures
        ({
            let b = serialize(sort_entries(work_entries(v.stacks)));
            let l = loaded(b, coords_of(index_entries(b)).len());
            &&& l.global == v.global
            &&& forall|c: Coordinate| #[trigger] history_of(l, c) == history_of(v, c)
        }),
{
    let s = work_entries(v.stacks);
    let t = sort_entries(s);
    lemma_work_entries(v.stacks);
    lemma_sort_entries(s);
    lemma_work_distinct(v.stacks);
    lemma_sort_order(s);
    let b = serialize(t);
    assert forall|x: (Coordinate, Seq<u8>)| #[trigger] t.contains(x) <==> in_stacks(v.stacks, x) by {
        assert(s.contains(x) <==> in_stacks(v.stacks, x));
    }
    assert forall|i: int, j: int| 0 <= i < j < t.len() implies coord_lt(#[trigger] t[i].0, #[trigger] t[j].0) by {
        lemma_coord_order(t[i].0, t[j].0, t[i].0);
    }
    assert forall|i: int| 0 <= i < t.len() implies in_delimiter_range(#[trigger] t[i].0) by {
        assert(t.contains(t[i]));
        let (j, k) = choose|j: int, k: int|
            0 <= j < v.stacks.len() && 0 <= k < v.stacks[j].1.records.len() && t[i] == #[trigger] entry_of(
                v.stacks[j].0,
                v.stacks[j].1.records[k],
            );
        assert(in_delimiter_range(work_coordinate_spec(v.stacks[j].0, v.stacks[j].1.records[k].sequence)));
    }
    assert forall|i: int| 0 <= i < t.len() implies {
        &&& (#[trigger] t[i]).1.len() > 0
        &&& forall|k: int| 0 <= k < t[i].1.len() ==> !is_delimiter(#[trigger] t[i].1[k])
        &&& valid_utf8(t[i].1)
        &&& from_scroll_spec(t[i].1) is Some
    } by {
        assert(t.contains(t[i]));
        let (j, k) = choose|j: int, k: int|
            0 <= j < v.stacks.len() && 0 <= k < v.stacks[j].1.records.len() && t[i] == #[trigger] entry_of(
                v.stacks[j].0,
                v.stacks[j].1.records[k],
            );
        assert(stack_persists(v.stacks[j].0, v.stacks[j].1));
        let r = v.stacks[j].1.records[k];
        assert(record_keeps(r));
        lemma_record_roundtrip(r.op, r.before, r.after);
    }
    assert(writable(t));
    lemma_index_reads_written(t);
    let n = t.len();
    assert(coords_of(index_entries(b)).len() == n);
    assert forall|i: int| 0 <= i < t.len() implies valid_utf8(#[trigger] t[i].1) && from_scroll_spec(t[i].1) is Some by {}
    lemma_loaded_replayed(t, n);
    assert(t.take(n as int) =~= t);
    let l = loaded(b, n);
    assert forall|c: Coordinate| #[trigger] history_of(l, c) == history_of(v, c) by {
        lemma_replayed_history(t, c);
        lemma_target_entries(v, t, c);
    }
    lemma_replayed_history(t, base_coordinate());
}

} // verus!
