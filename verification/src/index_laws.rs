//! The shape of the coordinate index built in one scan: its spans are
//! exactly the non-empty runs of bytes between delimiters, in document
//! order, and its coordinates increase whenever every delimiter before a
//! scroll that holds text moves its dimension forward.
use vstd::prelude::*;

use crate::coordinate::{base_coordinate, coord_lt, lemma_coord_order, strictly_sorted, Coordinate, COORDINATE_MAXIMUM};
use crate::coordinate_ext::{broken, delimiter_of, dim_val, with_val, Dimension};
use crate::index::{committed, coord_at, coords_of, delimiter_dim, index_entries, is_delimiter, segment_start, ScrollSpan};

verus! {

/// Whether `b[s..e]` is a non-empty run of bytes holding no delimiter that
/// cannot be made longer: a delimiter (or an end of `b`) stands on each
/// side.
pub open spec fn maximal_run(b: Seq<u8>, s: int, e: int) -> bool {
    &&& 0 <= s < e <= b.len()
    &&& forall|q: int| s <= q < e ==> !is_delimiter(#[trigger] b[q])
    &&& (s == 0 || is_delimiter(b[s - 1]))
    &&& (e == b.len() || is_delimiter(b[e]))
}

/// Whether delimiter `q` of `b` moves the coordinate it meets: its
/// dimension is not already at the highest value.
pub open spec fn break_advances(b: Seq<u8>, q: int) -> bool {
    delimiter_dim(b[q]) matches Some(d) ==> dim_val(coord_at(b, q as nat), d) + 1 < COORDINATE_MAXIMUM
}

/// Whether every delimiter of `b` that a scroll holding text follows moves
/// the coordinate it meets (delimiters after the last such scroll may
/// find their dimension at the highest value).
pub open spec fn breaks_advance(b: Seq<u8>) -> bool {
    forall|q: int, s: int, e: int|
        #![trigger maximal_run(b, s, e), break_advances(b, q)]
        0 <= q < s && maximal_run(b, s, e) ==> break_advances(b, q)
}

/// The scroll being read at `n` starts after the last delimiter before `n`
/// and holds no delimiter.
proof fn lemma_segment(b: Seq<u8>, n: nat)
    requires
        n <= b.len(),
    ensures
        segment_start(b, n) <= n,
        forall|q: int| segment_start(b, n) <= q < n ==> !is_delimiter(#[trigger] b[q]),
        segment_start(b, n) == 0 || is_delimiter(b[segment_start(b, n) - 1]),
        forall|q: int| 0 <= q < n && is_delimiter(#[trigger] b[q]) ==> q < segment_start(b, n),
    decreases n,
{
    if n > 0 {
        lemma_segment(b, (n - 1) as nat);
    }
}

/// Within a run that a delimiter (or the start) opens, the scroll being
/// read starts where the run does.
proof fn lemma_segment_in_run(b: Seq<u8>, s: nat, n: nat)
    requires
        s <= n <= b.len(),
        s == 0 || is_delimiter(b[s - 1]),
        forall|q: int| s <= q < n ==> !is_delimiter(#[trigger] b[q]),
    ensures
        segment_start(b, n) == s,
    decreases n,
{
    if n > s {
        assert(!is_delimiter(b[n - 1]));
        lemma_segment_in_run(b, s, (n - 1) as nat);
    } else if n > 0 {
        assert(is_delimiter(b[n - 1]));
    }
}

/// The scrolls closed before `n` are maximal runs in document order, each
/// at the coordinate reached where it ends, and each run closed by a
/// delimiter before `n` is one of them.
proof fn lemma_committed(b: Seq<u8>, n: nat)
    requires
        n <= b.len() <= usize::MAX,
    ensures
        forall|i: int|
            0 <= i < committed(b, n).len() ==> {
                let x = #[trigger] committed(b, n)[i];
                &&& maximal_run(b, x.1.start as int, x.1.end as int)
                &&& x.1.end < n
                &&& x.0 == coord_at(b, x.1.end as nat)
            },
        forall|i: int, j: int|
            0 <= i < j < committed(b, n).len() ==> (#[trigger] committed(b, n)[i]).1.end < (
            #[trigger] committed(b, n)[j]).1.start,
        forall|s: int, e: int|
            maximal_run(b, s, e) && e < n ==> exists|i: int|
                0 <= i < committed(b, n).len() && #[trigger] committed(b, n)[i].1 == (ScrollSpan {
                    start: s as usize,
                    end: e as usize,
                }),
    decreases n,
{
    if n > 0 {
        let m = (n - 1) as nat;
        lemma_committed(b, m);
        lemma_segment(b, m);
        let p = committed(b, m);
        let c = committed(b, n);
        let ss = segment_start(b, m);
        assert forall|i: int| 0 <= i < c.len() implies {
            let x = #[trigger] c[i];
            &&& maximal_run(b, x.1.start as int, x.1.end as int)
            &&& x.1.end < n
            &&& x.0 == coord_at(b, x.1.end as nat)
        } by {
            if i < p.len() {
                assert(c[i] == p[i]);
            }
        }
        assert forall|i: int, j: int| 0 <= i < j < c.len() implies (#[trigger] c[i]).1.end < (#[trigger] c[j]).1.start by {
            assert(c[i] == p[i]);
            if j < p.len() {
                assert(c[j] == p[j]);
            } else {
                assert(is_delimiter(b[p[i].1.end as int]));
            }
        }
        assert forall|s: int, e: int| maximal_run(b, s, e) && e < n implies exists|i: int|
            0 <= i < c.len() && #[trigger] c[i].1 == (ScrollSpan { start: s as usize, end: e as usize }) by {
            if e < m {
                let i = choose|i: int|
                    0 <= i < p.len() && #[trigger] p[i].1 == (ScrollSpan { start: s as usize, end: e as usize });
                assert(c[i] == p[i]);
            } else {
                lemma_segment_in_run(b, s as nat, m);
                assert(c[p.len() as int].1 == (ScrollSpan { start: s as usize, end: e as usize }));
            }
        }
    }
}

/// Reading on never moves the coordinate back, when the delimiters met
/// advance.
proof fn lemma_coord_grows(b: Seq<u8>, m: nat, n: nat)
    requires
        m <= n <= b.len(),
        forall|q: int| m <= q < n ==> #[trigger] break_advances(b, q),
    ensures
        coord_at(b, m) == coord_at(b, n) || coord_lt(coord_at(b, m), coord_at(b, n)),
        m < n && is_delimiter(b[m as int]) ==> coord_lt(coord_at(b, m), coord_at(b, n)),
    decreases n - m,
{
    if m < n {
        lemma_coord_grows(b, m + 1, n);
        let c = coord_at(b, m);
        assert(coord_at(b, m + 1) == match delimiter_dim(b[m as int]) {
            Some(d) => crate::coordinate_ext::broken(c, d),
            None => c,
        });
        assert(break_advances(b, m as int));
        if let Some(d) = delimiter_dim(b[m as int]) {
            assert(dim_val(c, d) + 1 < COORDINATE_MAXIMUM);
            crate::coordinate_ext::lemma_break_advances(c, d);
        }
        lemma_coord_order(c, coord_at(b, m + 1), coord_at(b, n));
    }
}

/// Bytes holding no delimiter leave the coordinate as it is.
proof fn lemma_coord_flat(b: Seq<u8>, m: nat, n: nat)
    requires
        m <= n <= b.len(),
        forall|q: int| m <= q < n ==> !is_delimiter(#[trigger] b[q]),
    ensures
        coord_at(b, m) == coord_at(b, n),
    decreases n - m,
{
    if m < n {
        lemma_coord_flat(b, m, (n - 1) as nat);
        assert(!is_delimiter(b[n - 1]));
    }
}

/// The index built from `bytes` holds exactly the maximal runs of bytes
/// between delimiters, each once, in document order; when every delimiter
/// before a scroll that holds text advances its dimension, its coordinates
/// strictly increase.
pub proof fn lemma_index_structure(bytes: Seq<u8>)
    requires
        bytes.len() <= usize::MAX,
    ensures
        forall|i: int|
            0 <= i < index_entries(bytes).len() ==> maximal_run(
                bytes,
                (#[trigger] index_entries(bytes)[i]).1.start as int,
                index_entries(bytes)[i].1.end as int,
            ),
        forall|i: int, j: int|
            0 <= i < j < index_entries(bytes).len() ==> (#[trigger] index_entries(bytes)[i]).1.end < (
            #[trigger] index_entries(bytes)[j]).1.start,
        forall|s: int, e: int|
            maximal_run(bytes, s, e) ==> exists|i: int|
                0 <= i < index_entries(bytes).len() && #[trigger] index_entries(bytes)[i].1 == (ScrollSpan {
                    start: s as usize,
                    end: e as usize,
                }),
        breaks_advance(bytes) ==> strictly_sorted(coords_of(index_entries(bytes))),
{
    let n = bytes.len();
    lemma_committed(bytes, n);
    lemma_segment(bytes, n);
    let c = committed(bytes, n);
    let e = index_entries(bytes);
    let ss = segment_start(bytes, n);
    assert forall|i: int| 0 <= i < e.len() implies maximal_run(
        bytes,
        (#[trigger] e[i]).1.start as int,
        e[i].1.end as int,
    ) by {
        if i < c.len() {
            assert(e[i] == c[i]);
        }
    }
    assert forall|i: int, j: int| 0 <= i < j < e.len() implies (#[trigger] e[i]).1.end < (#[trigger] e[j]).1.start by {
        assert(e[i] == c[i]);
        if j < c.len() {
            assert(e[j] == c[j]);
        } else {
            assert(is_delimiter(bytes[c[i].1.end as int]));
        }
    }
    assert forall|s: int, t: int| maximal_run(bytes, s, t) implies exists|i: int|
        0 <= i < e.len() && #[trigger] e[i].1 == (ScrollSpan { start: s as usize, end: t as usize }) by {
        if t < n {
            let i = choose|i: int|
                0 <= i < c.len() && #[trigger] c[i].1 == (ScrollSpan { start: s as usize, end: t as usize });
            assert(e[i] == c[i]);
        } else {
            lemma_segment_in_run(bytes, s as nat, n);
            assert(e[c.len() as int].1 == (ScrollSpan { start: s as usize, end: t as usize }));
        }
    }
    if breaks_advance(bytes) {
        let cs = coords_of(e);
        assert forall|i: int, j: int| 0 <= i < j < cs.len() implies coord_lt(#[trigger] cs[i], #[trigger] cs[j]) by {
            assert(e[i] == c[i]);
            let ei = c[i].1.end as nat;
            let sj = e[j].1.start as nat;
            let ej = e[j].1.end as nat;
            assert(maximal_run(bytes, sj as int, ej as int));
            if j < c.len() {
                assert(e[j] == c[j]);
                assert(cs[j] == coord_at(bytes, ej));
            } else {
                assert(ej == n);
                assert(cs[j] == coord_at(bytes, n));
            }
            lemma_coord_flat(bytes, sj, ej);
            assert(e[i].1.end < e[j].1.start);
            assert forall|q: int| ei <= q < sj implies #[trigger] break_advances(bytes, q) by {
                assert(maximal_run(bytes, sj as int, ej as int));
            }
            lemma_coord_grows(bytes, ei, sj);
        }
    }
}

/// Each dimension has a delimiter byte of its own, and that byte between
/// two scrolls opens the next value of its dimension: the text `a`, the
/// delimiter of `d`, `b` holds a scroll at the origin and one at the origin
/// with value 2 in `d`.
pub proof fn lemma_delimiter_opens_dimension(d: Dimension, f: Dimension)
    ensures
        d != f ==> delimiter_of(d) != delimiter_of(f),
        delimiter_dim(delimiter_of(d)) == Some(d),
        coords_of(index_entries(seq![97u8, delimiter_of(d), 98u8])) == seq![
            base_coordinate(),
            with_val(base_coordinate(), d, 2),
        ],
{
    let b = seq![97u8, delimiter_of(d), 98u8];
    assert(!is_delimiter(b[0]));
    assert(is_delimiter(b[1]));
    assert(!is_delimiter(b[2]));
    assert(segment_start(b, 0) == 0);
    assert(coord_at(b, 0) == base_coordinate());
    assert(segment_start(b, 1) == 0);
    assert(segment_start(b, 2) == 2);
    assert(segment_start(b, 3) == 2);
    assert(coord_at(b, 1) == base_coordinate());
    assert(coord_at(b, 2) == broken(base_coordinate(), d));
    assert(coord_at(b, 3) == coord_at(b, 2));
    assert(broken(base_coordinate(), d) == with_val(base_coordinate(), d, 2));
    assert(committed(b, 0) =~= Seq::<(Coordinate, ScrollSpan)>::empty());
    assert(committed(b, 1) =~= Seq::<(Coordinate, ScrollSpan)>::empty());
    assert(committed(b, 2) =~= seq![(base_coordinate(), ScrollSpan { start: 0, end: 1 })]);
    assert(committed(b, 3) == committed(b, 2));
    let e = index_entries(b);
    assert(e =~= seq![
        (base_coordinate(), ScrollSpan { start: 0, end: 1 }),
        (with_val(base_coordinate(), d, 2), ScrollSpan { start: 2, end: 3 }),
    ]);
    assert(coords_of(e) =~= seq![base_coordinate(), with_val(base_coordinate(), d, 2)]);
}

} // verus!
