//! Statistics about scrolls and the lattice, for status bars and
//! overviews: sizes, line, word and character counts, how populated
//! coordinates spread over each dimension, and what lies near a
//! coordinate.
use vstd::prelude::*;
use vstd::std_specs::iter::IteratorSpec;
use vstd::utf8::{decode_utf8, encode_utf8, valid_utf8};

use crate::coordinate::{coord_lt, Coordinate};
use crate::coordinate_ext::{clamp_value, dim_val, dimension_of_rank, with_val, CoordinateNav, Dimension};
use crate::index::{
    coords_of, distinct_count, is_next_after, is_prev_before, lookup, LatticeIndex, ScrollSpan,
};
use crate::cursor::line_total;
use crate::text::{
    dec_chars, digit_char, is_white_space, line_spans, push_chars, push_dec_chars, str_from_utf8,
    string_from_chars, white_space,
};

verus! {

/// Counts for one scroll.
#[derive(Debug, Clone, Copy)]
pub struct ScrollStats {
    pub byte_size: usize,
    pub line_count: usize,
    pub word_count: usize,
    pub char_count: usize,
}

/// The number of words in `cs`: runs of characters that are not white
/// space.
pub open spec fn word_count(cs: Seq<char>) -> nat
    decreases cs.len(),
{
    if cs.len() == 0 {
        0
    } else {
        let n = cs.len() as int;
        word_count(cs.drop_last()) + if !is_white_space(cs[n - 1]) && (n == 1 || is_white_space(cs[n - 2])) {
            1nat
        } else {
            0nat
        }
    }
}

/// Counts the words and characters of `s`.
fn words_and_chars(s: &str) -> (r: (usize, usize))
    ensures
        r.0 == word_count(s@),
        r.1 == s@.len(),
{
    broadcast use vstd::string::axiom_spec_iter, vstd::string::next_postcondition;

    let ghost all = s@;
    let blen = s.as_bytes().len();
    proof {
        crate::text::lemma_encode_len(all);
    }
    let mut words: usize = 0;
    let mut chars: usize = 0;
    let mut prev_space = true;
    let mut it = s.chars();
    loop
        invariant_except_break
            0 <= chars <= all.len(),
            all.len() <= blen,
            it.remaining() == all.skip(chars as int),
            words == word_count(all.take(chars as int)),
            words <= chars,
            prev_space == (chars == 0 || is_white_space(all[chars - 1])),
            it.obeys_prophetic_iter_laws(),
        ensures
            words == word_count(all),
            chars == all.len(),
        decreases all.len() - chars,
    {
        match it.next() {
            Some(c) => {
                assert(all.skip(chars as int)[0] == all[chars as int]);
                assert(all.skip(chars as int).drop_first() =~= all.skip(chars + 1));
                assert(all.take(chars + 1).drop_last() =~= all.take(chars as int));
                let space = white_space(c);
                if !space && prev_space {
                    words = words + 1;
                }
                prev_space = space;
                chars = chars + 1;
            },
            None => {
                assert(all.take(chars as int) =~= all);
                break;
            },
        }
    }
    (words, chars)
}

/// `num / den` rounded to the nearest integer, ties to the even one.
pub open spec fn round_half_even(num: nat, den: nat) -> nat {
    let q = num / den;
    let r = num % den;
    if 2 * r > den || (2 * r == den && q % 2 == 1) {
        q + 1
    } else {
        q
    }
}

/// `u` tenths written with one decimal.
pub open spec fn one_decimal(u: nat) -> Seq<char> {
    dec_chars(u / 10) + seq!['.', digit_char(u % 10)]
}

/// `u` hundredths written with two decimals.
pub open spec fn two_decimals(u: nat) -> Seq<char> {
    dec_chars(u / 100) + seq!['.', digit_char((u / 10) % 10), digit_char(u % 10)]
}

/// The size of `b` bytes for people: bytes below 1 KiB, then KiB with one
/// decimal below 1 MiB, then MiB with two decimals (each rounded to the
/// nearest, ties to even).
pub open spec fn size_text(b: nat) -> Seq<char> {
    if b < 1024 {
        dec_chars(b) + " B"@
    } else if b < 1024 * 1024 {
        one_decimal(round_half_even(10 * b, 1024)) + " KB"@
    } else {
        two_decimals(round_half_even(100 * b, 1024 * 1024)) + " MB"@
    }
}

/// Rounds `num / den` to the nearest integer, ties to even.
fn rounded(num: u128, den: u128) -> (r: u128)
    requires
        0 < den <= u64::MAX,
        num / den < u128::MAX,
    ensures
        r == round_half_even(num as nat, den as nat),
{
    let q = num / den;
    let rem = num % den;
    if 2 * rem > den || (2 * rem == den && q % 2 == 1) {
        q + 1
    } else {
        q
    }
}

impl ScrollStats {
    /// The counts of a scroll's bytes. Text that is not valid UTF-8 counts
    /// as empty (only its byte size is taken).
    pub fn from_bytes(bytes: &[u8]) -> (r: ScrollStats)
        ensures
            r.byte_size == bytes@.len(),
            valid_utf8(bytes@) ==> {
                &&& r.line_count == line_total(bytes@)
                &&& r.word_count == word_count(decode_utf8(bytes@))
                &&& r.char_count == decode_utf8(bytes@).len()
            },
            !valid_utf8(bytes@) ==> r.line_count == 0 && r.word_count == 0 && r.char_count == 0,
    {
        let byte_size = bytes.len();
        match str_from_utf8(bytes) {
            None => ScrollStats { byte_size, line_count: 0, word_count: 0, char_count: 0 },
            Some(content) => {
                let line_count = if byte_size == 0 {
                    0
                } else {
                    line_spans(bytes).len()
                };
                proof {
                    if byte_size == 0 {
                        assert(crate::text::lines_of(bytes@).len() == 0);
                    }
                }
                let (word_count, char_count) = words_and_chars(content);
                ScrollStats { byte_size, line_count, word_count, char_count }
            },
        }
    }

    /// The size for people: `2 B`, `2.0 KB`, `1.50 MB`.
    pub fn size_display(&self) -> (r: String)
        ensures
            r@ == size_text(self.byte_size as nat),
    {
        let b = self.byte_size;
        let mut v: Vec<char> = Vec::new();
        if b < 1024 {
            push_dec_chars(&mut v, b);
            push_chars(&mut v, " B");
        } else if b < 1024 * 1024 {
            let u = rounded(10 * (b as u128), 1024);
            assert(u <= 10 * 1024 * 1024);
            let whole = (u / 10) as usize;
            let frac = (u % 10) as u8;
            push_dec_chars(&mut v, whole);
            v.push('.');
            v.push((48 + frac) as char);
            push_chars(&mut v, " KB");
        } else {
            let u = rounded(100 * (b as u128), 1024 * 1024);
            assert(u <= (100 * b as int) / (1048576int) + 1);
            assert((100 * b as int) / (1048576int) + 1 <= 100 * b as int) by (nonlinear_arith)
                requires
                    b >= 1024 * 1024,
            ;
            let whole = (u / 100) as usize;
            let tens = ((u / 10) % 10) as u8;
            let ones = (u % 10) as u8;
            push_dec_chars(&mut v, whole);
            v.push('.');
            v.push((48 + tens) as char);
            v.push((48 + ones) as char);
            push_chars(&mut v, " MB");
        }
        assert(v@ =~= size_text(b as nat));
        string_from_chars(v.as_slice())
    }
}


/// How populated coordinates spread over one dimension.
#[derive(Debug, Clone)]
pub struct DimensionDensity {
    pub dimension: Dimension,
    /// (value, count) pairs, by increasing value.
    pub distribution: Vec<(usize, usize)>,
    /// The largest count.
    pub max_count: usize,
    /// The number of distinct populated coordinates.
    pub total: usize,
}

/// How many of `cs` have value `v` in dimension `d`.
pub open spec fn count_value(cs: Seq<Coordinate>, d: Dimension, v: usize) -> nat
    decreases cs.len(),
{
    if cs.len() == 0 {
        0
    } else {
        count_value(cs.drop_last(), d, v) + if dim_val(cs.last(), d) == v {
            1nat
        } else {
            0nat
        }
    }
}

/// `dist` lists each value that `cs` take in dimension `d` once, by
/// increasing value, with the number of coordinates taking it.
pub open spec fn is_distribution(dist: Seq<(usize, usize)>, cs: Seq<Coordinate>, d: Dimension) -> bool {
    &&& forall|i: int, j: int| 0 <= i < j < dist.len() ==> (#[trigger] dist[i]).0 < (#[trigger] dist[j]).0
    &&& forall|i: int|
        0 <= i < dist.len() ==> (#[trigger] dist[i]).1 == count_value(cs, d, dist[i].0) && dist[i].1 > 0
    &&& forall|k: int|
        0 <= k < cs.len() ==> exists|i: int| 0 <= i < dist.len() && (#[trigger] dist[i]).0 == dim_val(#[trigger] cs[k], d)
}

/// The largest count of a distribution (0 when empty).
pub open spec fn max_count_of(dist: Seq<(usize, usize)>) -> nat
    decreases dist.len(),
{
    if dist.len() == 0 {
        0
    } else {
        let m = max_count_of(dist.drop_last());
        if dist.last().1 > m {
            dist.last().1 as nat
        } else {
            m
        }
    }
}

/// Counting never exceeds the number of coordinates.
proof fn lemma_count_value_le(cs: Seq<Coordinate>, d: Dimension, v: usize)
    ensures
        count_value(cs, d, v) <= cs.len(),
    decreases cs.len(),
{
    if cs.len() > 0 {
        lemma_count_value_le(cs.drop_last(), d, v);
    }
}

/// Adds coordinate `k` of `cs` to the distribution of its first `k`.
fn tally(dist: &mut Vec<(usize, usize)>, cs: &[Coordinate], k: usize, d: Dimension)
    requires
        k < cs@.len(),
        is_distribution(old(dist)@, cs@.take(k as int), d),
    ensures
        is_distribution(final(dist)@, cs@.take(k + 1), d),
{
    let ghost pre = cs@.take(k as int);
    let ghost post = cs@.take(k + 1);
    assert(post.drop_last() =~= pre);
    assert(post.last() == cs@[k as int]);
    let v = cs[k].get_dim(d);
    proof {
        lemma_count_value_le(pre, d, v);
    }
    let mut p: usize = 0;
    while p < dist.len() && dist[p].0 < v
        invariant
            0 <= p <= dist@.len(),
            forall|i: int| 0 <= i < p ==> (#[trigger] dist@[i]).0 < v,
        decreases dist@.len() - p,
    {
        p = p + 1;
    }
    let ghost old_dist = dist@;
    if p < dist.len() && dist[p].0 == v {
        let (val, c) = dist[p];
        assert(c == count_value(pre, d, v));
        dist.set(p, (val, c + 1));
        proof {
            assert forall|i: int| 0 <= i < dist@.len() implies (#[trigger] dist@[i]).1 == count_value(post, d, dist@[i].0)
                && dist@[i].1 > 0 by {
                if i != p {
                    assert(dist@[i] == old_dist[i]);
                    assert(old_dist[i].0 != v) by {
                        if i < p {
                        } else {
                            assert(old_dist[p as int].0 < old_dist[i].0);
                        }
                    }
                }
            }
            assert forall|j: int| 0 <= j < post.len() implies exists|i: int|
                0 <= i < dist@.len() && (#[trigger] dist@[i]).0 == dim_val(#[trigger] post[j], d) by {
                if j < pre.len() {
                    assert(post[j] == pre[j]);
                    let i = choose|i: int| 0 <= i < old_dist.len() && (#[trigger] old_dist[i]).0 == dim_val(pre[j], d);
                    assert(dist@[i].0 == old_dist[i].0);
                } else {
                    assert(dist@[p as int].0 == v);
                }
            }
        }
    } else {
        dist.insert(p, (v, 1));
        proof {
            assert forall|i: int, j: int| 0 <= i < j < dist@.len() implies (#[trigger] dist@[i]).0 < (
            #[trigger] dist@[j]).0 by {
                if p < old_dist.len() {
                    assert(v < old_dist[p as int].0);
                }
                if i < p && j > p {
                    assert(dist@[j] == old_dist[j - 1]);
                    if p < old_dist.len() {
                        assert(old_dist[p as int].0 <= old_dist[j - 1].0) by {
                            if p < j - 1 {
                            }
                        }
                    }
                } else if i == p && j > p {
                    assert(dist@[j] == old_dist[j - 1]);
                    if j - 1 > p {
                        assert(old_dist[p as int].0 < old_dist[j - 1].0);
                    }
                } else if i > p {
                    assert(dist@[i] == old_dist[i - 1]);
                    assert(dist@[j] == old_dist[j - 1]);
                } else if j < p {
                    assert(dist@[i] == old_dist[i]);
                    assert(dist@[j] == old_dist[j]);
                } else {
                    assert(dist@[i] == old_dist[i]);
                }
            }
            assert(count_value(pre, d, v) == 0) by {
                if count_value(pre, d, v) > 0 {
                    lemma_count_value_positive(pre, d, v);
                    let j = choose|j: int| 0 <= j < pre.len() && dim_val(pre[j], d) == v;
                    let i = choose|i: int| 0 <= i < old_dist.len() && (#[trigger] old_dist[i]).0 == dim_val(#[trigger] pre[j], d);
                    if i < p {
                    } else if i > p {
                        assert(old_dist[p as int].0 < old_dist[i].0);
                    }
                }
            }
            assert forall|i: int| 0 <= i < dist@.len() implies (#[trigger] dist@[i]).1 == count_value(post, d, dist@[i].0)
                && dist@[i].1 > 0 by {
                if i < p {
                    assert(dist@[i] == old_dist[i]);
                } else if i > p {
                    assert(dist@[i] == old_dist[i - 1]);
                    if p < old_dist.len() {
                        assert(v < old_dist[p as int].0);
                        if i - 1 > p {
                            assert(old_dist[p as int].0 < old_dist[i - 1].0);
                        }
                    }
                }
            }
            assert forall|j: int| 0 <= j < post.len() implies exists|i: int|
                0 <= i < dist@.len() && (#[trigger] dist@[i]).0 == dim_val(#[trigger] post[j], d) by {
                if j < pre.len() {
                    assert(post[j] == pre[j]);
                    let i = choose|i: int| 0 <= i < old_dist.len() && (#[trigger] old_dist[i]).0 == dim_val(pre[j], d);
                    if i < p {
                        assert(dist@[i] == old_dist[i]);
                    } else {
                        assert(dist@[i + 1] == old_dist[i]);
                    }
                } else {
                    assert(dist@[p as int].0 == v);
                }
            }
        }
    }
}

/// A positive count has a witness.
proof fn lemma_count_value_positive(cs: Seq<Coordinate>, d: Dimension, v: usize)
    requires
        count_value(cs, d, v) > 0,
    ensures
        exists|j: int| 0 <= j < cs.len() && dim_val(cs[j], d) == v,
    decreases cs.len(),
{
    if dim_val(cs.last(), d) != v {
        lemma_count_value_positive(cs.drop_last(), d, v);
        let j = choose|j: int| 0 <= j < cs.drop_last().len() && dim_val(cs.drop_last()[j], d) == v;
        assert(cs[j] == cs.drop_last()[j]);
    }
}

impl DimensionDensity {
    /// How the populated coordinates of `index` spread over `dimension`.
    pub fn build(dimension: Dimension, index: &LatticeIndex) -> (r: DimensionDensity)
        ensures
            r.dimension == dimension,
            is_distribution(r.distribution@, coords_of(index@), dimension),
            r.max_count == max_count_of(r.distribution@),
            r.total == distinct_count(coords_of(index@)),
    {
        let coords = index.coordinates();
        let mut distribution: Vec<(usize, usize)> = Vec::new();
        let mut k: usize = 0;
        while k < coords.len()
            invariant
                0 <= k <= coords@.len(),
                is_distribution(distribution@, coords@.take(k as int), dimension),
            decreases coords@.len() - k,
        {
            tally(&mut distribution, coords, k, dimension);
            k = k + 1;
        }
        assert(coords@.take(k as int) =~= coords@);
        let mut max_count: usize = 0;
        let mut i: usize = 0;
        while i < distribution.len()
            invariant
                0 <= i <= distribution@.len(),
                max_count == max_count_of(distribution@.take(i as int)),
            decreases distribution@.len() - i,
        {
            assert(distribution@.take(i + 1).drop_last() =~= distribution@.take(i as int));
            if distribution[i].1 > max_count {
                max_count = distribution[i].1;
            }
            i = i + 1;
        }
        assert(distribution@.take(i as int) =~= distribution@);
        let total = index.scroll_count();
        DimensionDensity { dimension, distribution, max_count, total }
    }

    /// The number of distinct values in the dimension.
    pub fn distinct_values(&self) -> (r: usize)
        ensures
            r == self.distribution@.len(),
    {
        self.distribution.len()
    }

    /// The smallest and largest populated values, if any.
    pub fn range(&self) -> (r: Option<(usize, usize)>)
        ensures
            self.distribution@.len() == 0 ==> r is None,
            self.distribution@.len() > 0 ==> r == Some(
                (self.distribution@[0].0, self.distribution@.last().0),
            ),
    {
        let n = self.distribution.len();
        if n == 0 {
            None
        } else {
            Some((self.distribution[0].0, self.distribution[n - 1].0))
        }
    }
}


/// What lies near a coordinate.
#[derive(Debug)]
pub struct Neighborhood {
    /// Populated coordinates with the same Z arm.
    pub same_z: usize,
    /// Populated coordinates with the same Z and Y arms.
    pub same_y: usize,
    /// Populated coordinates in the same section (same Z and Y arms,
    /// chapter and section).
    pub same_x: usize,
    /// For each dimension (key 1 to 9), the nearest populated coordinates
    /// with a smaller and with a larger value in it.
    pub dim_neighbors: [(Option<Coordinate>, Option<Coordinate>); 9],
}

/// Whether `c` shares with `at` the Z arm (level 0), the Z and Y arms
/// (level 1), or those and the chapter and section (level 2).
pub open spec fn shares(c: Coordinate, at: Coordinate, level: int) -> bool {
    if level == 0 {
        c.z == at.z
    } else if level == 1 {
        c.z == at.z && c.y == at.y
    } else {
        c.z == at.z && c.y == at.y && c.x.chapter == at.x.chapter && c.x.section == at.x.section
    }
}

/// How many of `cs` share a level with `at`.
pub open spec fn count_sharing(cs: Seq<Coordinate>, at: Coordinate, level: int) -> nat
    decreases cs.len(),
{
    if cs.len() == 0 {
        0
    } else {
        count_sharing(cs.drop_last(), at, level) + if shares(cs.last(), at, level) {
            1nat
        } else {
            0nat
        }
    }
}

/// `r` when its value in `d` lies below (or, with `above`, over) `v`.
pub open spec fn kept_if(r: Option<Coordinate>, d: Dimension, v: usize, above: bool) -> Option<Coordinate> {
    match r {
        Some(c) => if (above && dim_val(c, d) > v) || (!above && dim_val(c, d) < v) {
            r
        } else {
            None
        },
        None => None,
    }
}

/// Whether `p` is the pair of neighbours of `at` in dimension `d` among
/// `cs`: the last populated coordinate before `at` with `d` lowered by one,
/// if it is lower in `d`; and the first after `at` with `d` raised by one,
/// if it is higher in `d` (values clamped to the coordinate range).
pub open spec fn neighbors_in(p: (Option<Coordinate>, Option<Coordinate>), cs: Seq<Coordinate>, at: Coordinate, d: Dimension) -> bool {
    let v = dim_val(at, d);
    &&& (v > 1 ==> exists|r: Option<Coordinate>|
        is_prev_before(cs, with_val(at, d, clamp_value((v - 1) as usize)), r) && p.0 == kept_if(r, d, v, false))
    &&& (v <= 1 ==> p.0 is None)
    &&& exists|r: Option<Coordinate>|
        is_next_after(cs, with_val(at, d, clamp_value((v + 1) as usize)), r) && p.1 == kept_if(r, d, v, true)
}

/// Counts the coordinates that share a level with `at`.
fn count_shared(coords: &[Coordinate], at: &Coordinate, level: u8) -> (r: usize)
    requires
        level <= 2,
    ensures
        r == count_sharing(coords@, *at, level as int),
{
    let mut n: usize = 0;
    let mut k: usize = 0;
    while k < coords.len()
        invariant
            0 <= k <= coords@.len(),
            level <= 2,
            n == count_sharing(coords@.take(k as int), *at, level as int),
            n <= k,
        decreases coords@.len() - k,
    {
        let c = coords[k];
        assert(coords@.take(k + 1).drop_last() =~= coords@.take(k as int));
        let hit = if level == 0 {
            c.z == at.z
        } else if level == 1 {
            c.z == at.z && c.y == at.y
        } else {
            c.z == at.z && c.y == at.y && c.x.chapter == at.x.chapter && c.x.section == at.x.section
        };
        if hit {
            n = n + 1;
        }
        k = k + 1;
    }
    assert(coords@.take(k as int) =~= coords@);
    n
}

/// The nearest populated neighbours of `at` in the dimension of key `i`.
fn neighbors_of(at: &Coordinate, index: &LatticeIndex, i: u8) -> (r: (Option<Coordinate>, Option<Coordinate>))
    requires
        1 <= i <= 9,
        dim_val(*at, dimension_of_rank(i as int)) < usize::MAX,
    ensures
        neighbors_in(r, coords_of(index@), *at, dimension_of_rank(i as int)),
{
    let dim = match Dimension::from_index(i) {
        Some(d) => d,
        None => Dimension::Scroll,
    };
    let cur = at.dimension_value(dim);
    let ghost d = dim;
    let ghost cs = coords_of(index@);
    let ghost mut rb: Option<Coordinate> = None;
    let back = if cur > 1 {
        let mut b = *at;
        b.set_dimension(dim, cur - 1);
        let r = index.prev_populated(&b);
        proof {
            rb = r;
        }
        match r {
            Some(c) => if c.dimension_value(dim) < cur {
                r
            } else {
                None
            },
            None => None,
        }
    } else {
        None
    };
    let mut f = *at;
    f.set_dimension(dim, cur + 1);
    let r = index.next_populated(&f);
    let fwd = match r {
        Some(c) => if c.dimension_value(dim) > cur {
            r
        } else {
            None
        },
        None => None,
    };
    proof {
        if cur > 1 {
            assert(is_prev_before(cs, with_val(*at, d, clamp_value((cur - 1) as usize)), rb) && back == kept_if(rb, d, cur, false));
        }
        assert(is_next_after(cs, with_val(*at, d, clamp_value((cur + 1) as usize)), r) && fwd == kept_if(r, d, cur, true));
    }
    (back, fwd)
}

impl Neighborhood {
    /// What lies near `coord` in the lattice of `index`.
    pub fn build(coord: &Coordinate, index: &LatticeIndex) -> (r: Neighborhood)
        requires
            forall|k: int| 1 <= k <= 9 ==> dim_val(*coord, #[trigger] dimension_of_rank(k)) < usize::MAX,
        ensures
            r.same_z == count_sharing(coords_of(index@), *coord, 0),
            r.same_y == count_sharing(coords_of(index@), *coord, 1),
            r.same_x == count_sharing(coords_of(index@), *coord, 2),
            forall|k: int|
                0 <= k < 9 ==> neighbors_in(
                    #[trigger] r.dim_neighbors@[k],
                    coords_of(index@),
                    *coord,
                    dimension_of_rank(k + 1),
                ),
    {
        let coords = index.coordinates();
        let same_z = count_shared(coords, coord, 0);
        let same_y = count_shared(coords, coord, 1);
        let same_x = count_shared(coords, coord, 2);
        assert(dim_val(*coord, dimension_of_rank(1)) < usize::MAX);
        assert(dim_val(*coord, dimension_of_rank(2)) < usize::MAX);
        assert(dim_val(*coord, dimension_of_rank(3)) < usize::MAX);
        assert(dim_val(*coord, dimension_of_rank(4)) < usize::MAX);
        assert(dim_val(*coord, dimension_of_rank(5)) < usize::MAX);
        assert(dim_val(*coord, dimension_of_rank(6)) < usize::MAX);
        assert(dim_val(*coord, dimension_of_rank(7)) < usize::MAX);
        assert(dim_val(*coord, dimension_of_rank(8)) < usize::MAX);
        assert(dim_val(*coord, dimension_of_rank(9)) < usize::MAX);
        let dim_neighbors = [
            neighbors_of(coord, index, 1),
            neighbors_of(coord, index, 2),
            neighbors_of(coord, index, 3),
            neighbors_of(coord, index, 4),
            neighbors_of(coord, index, 5),
            neighbors_of(coord, index, 6),
            neighbors_of(coord, index, 7),
            neighbors_of(coord, index, 8),
            neighbors_of(coord, index, 9),
        ];
        Neighborhood { same_z, same_y, same_x, dim_neighbors }
    }
}


/// An overview of the whole lattice.
#[derive(Debug, Clone)]
pub struct LatticeOverview {
    pub total_scrolls: usize,
    pub total_bytes: usize,
    /// The density of each dimension, keys 1 to 9.
    pub dimension_densities: Vec<DimensionDensity>,
    pub avg_scroll_size: usize,
    /// The first largest scroll in document order, with its size.
    pub largest_scroll: Option<(Coordinate, usize)>,
    /// The first smallest scroll in document order, with its size.
    pub smallest_scroll: Option<(Coordinate, usize)>,
}

/// The size of the span the index gives for `c`, if any.
pub open spec fn size_at(e: Seq<(Coordinate, ScrollSpan)>, c: Coordinate) -> Option<nat> {
    match lookup(e, c) {
        Some(sp) => Some((sp.end - sp.start) as nat),
        None => None,
    }
}

/// The first coordinate of `cs` whose scroll is strictly larger (or, with
/// `!larger`, strictly smaller) than all before it, with its size.
pub open spec fn extreme_scroll(e: Seq<(Coordinate, ScrollSpan)>, cs: Seq<Coordinate>, larger: bool) -> Option<
    (Coordinate, usize),
>
    decreases cs.len(),
{
    if cs.len() == 0 {
        None
    } else {
        let best = extreme_scroll(e, cs.drop_last(), larger);
        let c = cs.last();
        match size_at(e, c) {
            None => best,
            Some(n) => match best {
                None => Some((c, n as usize)),
                Some((_, b)) => if (larger && n > b) || (!larger && n < b) {
                    Some((c, n as usize))
                } else {
                    best
                },
            },
        }
    }
}

/// The sizes of the scrolls of `cs`, added up.
pub open spec fn content_total(e: Seq<(Coordinate, ScrollSpan)>, cs: Seq<Coordinate>) -> nat
    decreases cs.len(),
{
    if cs.len() == 0 {
        0
    } else {
        content_total(e, cs.drop_last()) + match size_at(e, cs.last()) {
            Some(n) => n,
            None => 0,
        }
    }
}

/// Whether `o` is the overview of the index `e` built over `len` bytes:
/// its scroll count, byte count, the density of each dimension, the
/// average scroll size, and the first largest and smallest scrolls.
pub open spec fn describes(o: LatticeOverview, e: Seq<(Coordinate, ScrollSpan)>, len: nat) -> bool {
    &&& o.total_scrolls == distinct_count(coords_of(e))
    &&& o.total_bytes == len
    &&& o.dimension_densities@.len() == 9
    &&& forall|k: int|
        0 <= k < 9 ==> {
            let dd = #[trigger] o.dimension_densities@[k];
            &&& dd.dimension == dimension_of_rank(k + 1)
            &&& is_distribution(dd.distribution@, coords_of(e), dd.dimension)
            &&& dd.max_count == max_count_of(dd.distribution@)
            &&& dd.total == distinct_count(coords_of(e))
        }
    &&& o.avg_scroll_size == if o.total_scrolls > 0 {
        content_total(e, coords_of(e)) / (o.total_scrolls as nat)
    } else {
        0
    }
    &&& o.largest_scroll == extreme_scroll(e, coords_of(e), true)
    &&& o.smallest_scroll == extreme_scroll(e, coords_of(e), false)
}

/// Whether the scroll sizes of an index add up within a `usize`.
pub open spec fn content_fits(index: &LatticeIndex) -> bool {
    content_total(index@, coords_of(index@)) <= usize::MAX
}

/// A prefix total never passes the whole.
proof fn lemma_content_total_prefix(e: Seq<(Coordinate, ScrollSpan)>, cs: Seq<Coordinate>, k: int)
    requires
        0 <= k <= cs.len(),
    ensures
        content_total(e, cs.take(k)) <= content_total(e, cs),
    decreases cs.len() - k,
{
    if k < cs.len() {
        lemma_content_total_prefix(e, cs, k + 1);
        assert(cs.take(k + 1).drop_last() =~= cs.take(k));
    } else {
        assert(cs.take(k) =~= cs);
    }
}

/// Whether the scroll sizes of an index add up within a `usize`, so that
/// an overview can be built.
pub fn overview_fits(index: &LatticeIndex) -> (r: bool)
    ensures
        r == content_fits(index),
{
    let coords = index.coordinates();
    let n = coords.len();
    let ghost cs = coords_of(index@);
    let mut total: usize = 0;
    let mut i: usize = 0;
    while i < n
        invariant
            0 <= i <= n,
            n == cs.len(),
            coords@ == cs,
            cs == coords_of(index@),
            total as nat == content_total(index@, cs.take(i as int)),
        decreases n - i,
    {
        assert(cs.take(i + 1).drop_last() =~= cs.take(i as int));
        assert(cs.take(i + 1).last() == cs[i as int]);
        let size: usize = match index.get(&coords[i]) {
            Some(sp) => sp.end - sp.start,
            None => 0,
        };
        if total > usize::MAX - size {
            proof {
                lemma_content_total_prefix(index@, cs, i + 1);
            }
            return false;
        }
        total = total + size;
        i = i + 1;
    }
    assert(cs.take(n as int) =~= cs);
    true
}

impl LatticeOverview {
    /// The overview of the lattice of `index`.
    pub fn build(_buffer: &[u8], index: &LatticeIndex) -> (r: LatticeOverview)
        requires
            content_fits(index),
        ensures
            describes(r, index@, index.spec_buffer_len()),
    {
        let total_scrolls = index.scroll_count();
        let total_bytes = index.buffer_len();
        let mut dimension_densities: Vec<DimensionDensity> = Vec::new();
        let mut i: u8 = 1;
        while i <= 9
            invariant
                1 <= i <= 10,
                dimension_densities@.len() == i - 1,
                forall|k: int|
                    0 <= k < i - 1 ==> {
                        let dd = #[trigger] dimension_densities@[k];
                        &&& dd.dimension == dimension_of_rank(k + 1)
                        &&& is_distribution(dd.distribution@, coords_of(index@), dd.dimension)
                        &&& dd.max_count == max_count_of(dd.distribution@)
                        &&& dd.total == distinct_count(coords_of(index@))
                    },
            decreases 10 - i,
        {
            let dim = match Dimension::from_index(i) {
                Some(d) => d,
                None => Dimension::Scroll,
            };
            dimension_densities.push(DimensionDensity::build(dim, index));
            i = i + 1;
        }
        let coords = index.coordinates();
        let ghost e = index@;
        let mut largest: Option<(Coordinate, usize)> = None;
        let mut smallest: Option<(Coordinate, usize)> = None;
        let mut content_bytes: usize = 0;
        let mut k: usize = 0;
        while k < coords.len()
            invariant
                0 <= k <= coords@.len(),
                coords@ == coords_of(e),
                e == index@,
                content_fits(index),
                content_bytes == content_total(e, coords@.take(k as int)),
                largest == extreme_scroll(e, coords@.take(k as int), true),
                smallest == extreme_scroll(e, coords@.take(k as int), false),
            decreases coords@.len() - k,
        {
            let coord = coords[k];
            let ghost t = coords@.take(k + 1);
            assert(t.drop_last() =~= coords@.take(k as int));
            assert(t.last() == coord);
            proof {
                lemma_content_total_prefix(e, coords@, k + 1);
            }
            match index.get(&coord) {
                Some(span) => {
                    let size = span.len();
                    content_bytes = content_bytes + size;
                    let bigger = match largest {
                        None => true,
                        Some((_, m)) => size > m,
                    };
                    if bigger {
                        largest = Some((coord, size));
                    }
                    let less = match smallest {
                        None => true,
                        Some((_, m)) => size < m,
                    };
                    if less {
                        smallest = Some((coord, size));
                    }
                },
                None => {},
            }
            k = k + 1;
        }
        assert(coords@.take(k as int) =~= coords@);
        let avg_scroll_size = if total_scrolls > 0 {
            content_bytes / total_scrolls
        } else {
            0
        };
        LatticeOverview {
            total_scrolls,
            total_bytes,
            dimension_densities,
            avg_scroll_size,
            largest_scroll: largest,
            smallest_scroll: smallest,
        }
    }
}

/// What the neighbourhood counts count: one more coordinate adds one to
/// the Z count exactly when it has the Z arm of `at`, to the Y count
/// exactly when it has both the Z and the Y arm of `at`, and to the X count
/// exactly when it also has `at`'s chapter and section; so each finer count
/// is at most the coarser one.
pub proof fn lemma_sharing_counts(cs: Seq<Coordinate>, at: Coordinate, x: Coordinate)
    ensures
        count_sharing(cs.push(x), at, 0) == count_sharing(cs, at, 0) + if x.z == at.z { 1nat } else { 0nat },
        count_sharing(cs.push(x), at, 1) == count_sharing(cs, at, 1) + if x.z == at.z && x.y == at.y {
            1nat
        } else {
            0nat
        },
        count_sharing(cs.push(x), at, 2) == count_sharing(cs, at, 2) + if x.z == at.z && x.y == at.y
            && x.x.chapter == at.x.chapter && x.x.section == at.x.section {
            1nat
        } else {
            0nat
        },
        count_sharing(cs, at, 2) <= count_sharing(cs, at, 1) <= count_sharing(cs, at, 0),
    decreases cs.len(),
{
    assert(cs.push(x).drop_last() =~= cs);
    if cs.len() > 0 {
        lemma_sharing_counts(cs.drop_last(), at, cs.last());
        assert(cs.drop_last().push(cs.last()) =~= cs);
    }
}

} // verus!
