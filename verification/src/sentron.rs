//! The sentron: the neighbourhood of a coordinate seen as a neuron with
//! eight connections. The eight coarser dimensions split into a spatial
//! group (library, shelf, series, collection) and a temporal group
//! (volume, book, chapter, section); along each, a coordinate reaches the
//! populated coordinates before and after it. A sentron gathers the forty
//! populated coordinates nearest to a center, by Manhattan distance over
//! all nine dimensions.
use vstd::prelude::*;

use crate::coordinate::Coordinate;
use crate::coordinate_ext::{dim_val, dimension_name, with_val, Dimension};
use crate::index::{coords_of, LatticeIndex};
use crate::text::{dec_chars, push_chars, push_dec_chars, string_from_chars};

verus! {

/// The two groups of connection axes.
#[derive(Debug, Clone, Copy, PartialEq, Eq, Structural)]
pub enum AxisGroup {
    /// Library, shelf, series, collection: the shape of space.
    Spatial,
    /// Volume, book, chapter, section: the flow of time.
    Sequential,
}

impl AxisGroup {
    /// The group's name.
    pub fn name(&self) -> (r: &'static str)
        ensures
            r@ == (match *self {
                AxisGroup::Spatial => "spatial"@,
                AxisGroup::Sequential => "temporal"@,
            }),
    {
        match self {
            AxisGroup::Spatial => "spatial",
            AxisGroup::Sequential => "temporal",
        }
    }

    /// The four dimensions of the group, coarsest first.
    pub fn dimensions(&self) -> (r: [Dimension; 4])
        ensures
            r@ == (match *self {
                AxisGroup::Spatial => seq![
                    Dimension::Library,
                    Dimension::Shelf,
                    Dimension::Series,
                    Dimension::Collection,
                ],
                AxisGroup::Sequential => seq![
                    Dimension::Volume,
                    Dimension::Book,
                    Dimension::Chapter,
                    Dimension::Section,
                ],
            }),
    {
        match self {
            AxisGroup::Spatial => [Dimension::Library, Dimension::Shelf, Dimension::Series, Dimension::Collection],
            AxisGroup::Sequential => [Dimension::Volume, Dimension::Book, Dimension::Chapter, Dimension::Section],
        }
    }
}

/// One connection axis: a dimension and what lies before and after along
/// it.
#[derive(Debug, Clone, Copy)]
pub struct Axon {
    pub dimension: Dimension,
    pub group: AxisGroup,
    /// Populated coordinates with a smaller value in the dimension.
    pub backward_count: usize,
    /// Populated coordinates with a larger value in the dimension.
    pub forward_count: usize,
    /// The nearest populated coordinate before, differing in this dimension
    /// only.
    pub backward_nearest: Option<Coordinate>,
    /// The nearest populated coordinate after, differing in this dimension
    /// only.
    pub forward_nearest: Option<Coordinate>,
}

impl Axon {
    /// All coordinates the axis reaches.
    pub fn total(&self) -> (r: usize)
        requires
            self.backward_count + self.forward_count <= usize::MAX,
        ensures
            r == self.backward_count + self.forward_count,
    {
        self.backward_count + self.forward_count
    }
}

/// A populated coordinate of a sentron with its eight axons.
#[derive(Debug, Clone, Copy)]
pub struct Neuron {
    pub coordinate: Coordinate,
    pub axons: [Axon; 8],
    /// Distance from the sentron's center.
    pub distance: usize,
}

/// The neighbourhood of a center coordinate.
#[derive(Debug)]
pub struct Sentron {
    /// The center.
    pub center: Coordinate,
    /// The nearest populated coordinates, at most forty.
    pub neurons: Vec<Neuron>,
    /// The eight axons of the center.
    pub axons: [Axon; 8],
    /// The largest axon total of the center.
    pub max_axon_total: usize,
    /// What the spatial axons reach together.
    pub structural_reach: usize,
    /// What the temporal axons reach together.
    pub sequential_reach: usize,
}

/// The most neurons a sentron holds.
pub const SENTRON_CAPACITY: usize = 40;

/// The connections of one neuron.
pub const CONNECTIONS_PER_NEURON: usize = 8;

/// `|a - b|`.
pub open spec fn abs_diff(a: usize, b: usize) -> nat {
    if a > b {
        (a - b) as nat
    } else {
        (b - a) as nat
    }
}

/// The Manhattan distance between two coordinates over the dimensions of
/// key 1 to `k`.
pub open spec fn partial_distance(a: Coordinate, b: Coordinate, k: int) -> nat
    decreases k,
{
    if k <= 0 {
        0
    } else {
        partial_distance(a, b, k - 1) + abs_diff(
            dim_val(a, crate::coordinate_ext::dimension_of_rank(k)),
            dim_val(b, crate::coordinate_ext::dimension_of_rank(k)),
        )
    }
}

/// The Manhattan distance between two coordinates over all nine
/// dimensions.
pub open spec fn distance(a: Coordinate, b: Coordinate) -> nat {
    partial_distance(a, b, 9)
}

/// The Manhattan distance over all nine dimensions.
pub fn coord_distance(a: &Coordinate, b: &Coordinate) -> (r: usize)
    requires
        distance(*a, *b) <= usize::MAX,
    ensures
        r == distance(*a, *b),
{
    let mut dist: usize = 0;
    let mut i: u8 = 1;
    while i <= 9
        invariant
            1 <= i <= 10,
            dist == partial_distance(*a, *b, i - 1),
            distance(*a, *b) <= usize::MAX,
        decreases 10 - i,
    {
        proof {
            lemma_partial_distance_le(*a, *b, i as int, 9);
        }
        let dim = match Dimension::from_index(i) {
            Some(d) => d,
            None => Dimension::Scroll,
        };
        let va = a.get_dim(dim);
        let vb = b.get_dim(dim);
        dist = dist + if va > vb {
            va - vb
        } else {
            vb - va
        };
        i = i + 1;
    }
    dist
}

/// Partial distances grow with the number of dimensions.
proof fn lemma_partial_distance_le(a: Coordinate, b: Coordinate, j: int, k: int)
    requires
        j <= k,
    ensures
        partial_distance(a, b, j) <= partial_distance(a, b, k),
    decreases k - j,
{
    if j < k {
        lemma_partial_distance_le(a, b, j, k - 1);
    }
}

/// The dimension and group of axon `i` of a neuron: the spatial axes
/// first, then the temporal ones.
pub open spec fn axis(i: int) -> (Dimension, AxisGroup) {
    if i == 0 {
        (Dimension::Library, AxisGroup::Spatial)
    } else if i == 1 {
        (Dimension::Shelf, AxisGroup::Spatial)
    } else if i == 2 {
        (Dimension::Series, AxisGroup::Spatial)
    } else if i == 3 {
        (Dimension::Collection, AxisGroup::Spatial)
    } else if i == 4 {
        (Dimension::Volume, AxisGroup::Sequential)
    } else if i == 5 {
        (Dimension::Book, AxisGroup::Sequential)
    } else if i == 6 {
        (Dimension::Chapter, AxisGroup::Sequential)
    } else {
        (Dimension::Section, AxisGroup::Sequential)
    }
}

/// How many of `cs` have a value in `d` below (or, with `above`, over) `v`.
pub open spec fn count_side(cs: Seq<Coordinate>, d: Dimension, v: usize, above: bool) -> nat
    decreases cs.len(),
{
    if cs.len() == 0 {
        0
    } else {
        let c = cs.last();
        let hit = if above {
            dim_val(c, d) > v
        } else {
            dim_val(c, d) < v
        };
        count_side(cs.drop_last(), d, v, above) + if hit {
            1nat
        } else {
            0nat
        }
    }
}

/// Whether `c` differs from `center` in dimension `d` only, on the given
/// side.
pub open spec fn axial(center: Coordinate, c: Coordinate, d: Dimension, above: bool) -> bool {
    &&& c == with_val(center, d, dim_val(c, d))
    &&& if above {
        dim_val(c, d) > dim_val(center, d)
    } else {
        dim_val(c, d) < dim_val(center, d)
    }
}

/// The nearest of `cs` that differs from `center` only in `d`, on the given
/// side, with its distance; the first one wins ties.
pub open spec fn nearest_side(cs: Seq<Coordinate>, center: Coordinate, d: Dimension, above: bool) -> Option<
    (Coordinate, nat),
>
    decreases cs.len(),
{
    if cs.len() == 0 {
        None
    } else {
        let best = nearest_side(cs.drop_last(), center, d, above);
        let c = cs.last();
        if axial(center, c, d, above) {
            let dist = abs_diff(dim_val(c, d), dim_val(center, d));
            match best {
                None => Some((c, dist)),
                Some((b, bd)) => if dist < bd {
                    Some((c, dist))
                } else {
                    best
                },
            }
        } else {
            best
        }
    }
}

/// The coordinate of an optional (coordinate, distance) pair.
pub open spec fn first_of(p: Option<(Coordinate, nat)>) -> Option<Coordinate> {
    match p {
        Some((c, _)) => Some(c),
        None => None,
    }
}

/// Axon `i` of `center` among the populated coordinates `cs`.
pub open spec fn axon_spec(center: Coordinate, cs: Seq<Coordinate>, i: int) -> Axon {
    let (d, g) = axis(i);
    let v = dim_val(center, d);
    Axon {
        dimension: d,
        group: g,
        backward_count: count_side(cs, d, v, false) as usize,
        forward_count: count_side(cs, d, v, true) as usize,
        backward_nearest: first_of(nearest_side(cs, center, d, false)),
        forward_nearest: first_of(nearest_side(cs, center, d, true)),
    }
}

/// The eight axons of `center`.
pub open spec fn axons_spec(center: Coordinate, cs: Seq<Coordinate>) -> Seq<Axon> {
    Seq::new(8, |i: int| axon_spec(center, cs, i))
}

/// An axon's total, in specifications.
pub open spec fn axon_total(a: Axon) -> nat {
    (a.backward_count + a.forward_count) as nat
}

/// Counting one side of a prefix.
proof fn lemma_count_side_bound(cs: Seq<Coordinate>, d: Dimension, v: usize, above: bool)
    ensures
        count_side(cs, d, v, above) <= cs.len(),
        count_side(cs, d, v, false) + count_side(cs, d, v, true) <= cs.len(),
    decreases cs.len(),
{
    if cs.len() > 0 {
        lemma_count_side_bound(cs.drop_last(), d, v, above);
    }
}

/// Builds axon `i` of `center`.
fn build_axon(center: &Coordinate, coords: &[Coordinate], i: usize) -> (r: Axon)
    requires
        i < 8,
    ensures
        r == axon_spec(*center, coords@, i as int),
{
    let (dimension, group) = match i {
        0 => (Dimension::Library, AxisGroup::Spatial),
        1 => (Dimension::Shelf, AxisGroup::Spatial),
        2 => (Dimension::Series, AxisGroup::Spatial),
        3 => (Dimension::Collection, AxisGroup::Spatial),
        4 => (Dimension::Volume, AxisGroup::Sequential),
        5 => (Dimension::Book, AxisGroup::Sequential),
        6 => (Dimension::Chapter, AxisGroup::Sequential),
        _ => (Dimension::Section, AxisGroup::Sequential),
    };
    let cur = center.get_dim(dimension);
    let mut backward_count: usize = 0;
    let mut forward_count: usize = 0;
    let mut backward_nearest: Option<(Coordinate, usize)> = None;
    let mut forward_nearest: Option<(Coordinate, usize)> = None;
    let ghost cs = coords@;
    let mut k: usize = 0;
    while k < coords.len()
        invariant
            0 <= k <= coords@.len(),
            cs == coords@,
            (dimension, group) == axis(i as int),
            cur == dim_val(*center, dimension),
            backward_count == count_side(cs.take(k as int), dimension, cur, false),
            forward_count == count_side(cs.take(k as int), dimension, cur, true),
            match backward_nearest {
                None => nearest_side(cs.take(k as int), *center, dimension, false) is None,
                Some((c, d)) => nearest_side(cs.take(k as int), *center, dimension, false) == Some((c, d as nat)),
            },
            match forward_nearest {
                None => nearest_side(cs.take(k as int), *center, dimension, true) is None,
                Some((c, d)) => nearest_side(cs.take(k as int), *center, dimension, true) == Some((c, d as nat)),
            },
        decreases coords@.len() - k,
    {
        let c = coords[k];
        let ghost t = cs.take(k + 1);
        assert(t.drop_last() =~= cs.take(k as int));
        assert(t.last() == c);
        proof {
            lemma_count_side_bound(cs.take(k as int), dimension, cur, false);
        }
        let val = c.get_dim(dimension);
        let axial_here = center.put_dim(dimension, val).same(&c);
        if val < cur {
            backward_count = backward_count + 1;
            if axial_here {
                let dist = cur - val;
                let better = match backward_nearest {
                    None => true,
                    Some((_, d)) => dist < d,
                };
                if better {
                    backward_nearest = Some((c, dist));
                }
            }
        } else if val > cur {
            forward_count = forward_count + 1;
            if axial_here {
                let dist = val - cur;
                let better = match forward_nearest {
                    None => true,
                    Some((_, d)) => dist < d,
                };
                if better {
                    forward_nearest = Some((c, dist));
                }
            }
        }
        k = k + 1;
    }
    assert(cs.take(k as int) =~= cs);
    Axon {
        dimension,
        group,
        backward_count,
        forward_count,
        backward_nearest: match backward_nearest {
            Some((c, _)) => Some(c),
            None => None,
        },
        forward_nearest: match forward_nearest {
            Some((c, _)) => Some(c),
            None => None,
        },
    }
}

/// The eight axons of `coord`: for each of the eight coarser dimensions,
/// how many populated coordinates lie below and above it in that dimension,
/// and the nearest ones that differ from it in that dimension alone.
fn build_axons(coord: &Coordinate, index: &LatticeIndex) -> (r: [Axon; 8])
    ensures
        r@ == axons_spec(*coord, coords_of(index@)),
{
    let coords = index.coordinates();
    let r = [
        build_axon(coord, coords, 0),
        build_axon(coord, coords, 1),
        build_axon(coord, coords, 2),
        build_axon(coord, coords, 3),
        build_axon(coord, coords, 4),
        build_axon(coord, coords, 5),
        build_axon(coord, coords, 6),
        build_axon(coord, coords, 7),
    ];
    assert(r@ =~= axons_spec(*coord, coords_of(index@)));
    r
}


/// Each populated coordinate with its distance from `center`.
pub open spec fn by_distance(center: Coordinate, cs: Seq<Coordinate>) -> Seq<(Coordinate, usize)> {
    cs.map_values(|c: Coordinate| (c, distance(center, c) as usize))
}

/// Where an entry at distance `d` goes in a list sorted by distance: after
/// every entry that is not farther.
pub open spec fn distance_slot(s: Seq<(Coordinate, usize)>, d: usize) -> nat
    decreases s.len(),
{
    if s.len() == 0 {
        0
    } else if d < s.last().1 {
        distance_slot(s.drop_last(), d)
    } else {
        s.len()
    }
}

/// The entries stably sorted by distance.
pub open spec fn sort_by_distance(s: Seq<(Coordinate, usize)>) -> Seq<(Coordinate, usize)>
    decreases s.len(),
{
    if s.len() == 0 {
        s
    } else {
        let t = sort_by_distance(s.drop_last());
        t.insert(distance_slot(t, s.last().1) as int, s.last())
    }
}

/// The populated coordinates nearest to `center` with their distances,
/// nearest first (ties in document order), at most forty.
pub open spec fn nearest_coordinates(center: Coordinate, cs: Seq<Coordinate>) -> Seq<(Coordinate, usize)> {
    let s = sort_by_distance(by_distance(center, cs));
    if s.len() <= SENTRON_CAPACITY {
        s
    } else {
        s.take(SENTRON_CAPACITY as int)
    }
}

/// The largest total among the first `k` axons.
pub open spec fn max_total(a: Seq<Axon>, k: int) -> nat
    decreases k,
{
    if k <= 0 {
        0
    } else {
        let m = max_total(a, k - 1);
        if axon_total(a[k - 1]) > m {
            axon_total(a[k - 1])
        } else {
            m
        }
    }
}

/// The sum of the totals of axons `from..to`.
pub open spec fn reach(a: Seq<Axon>, from: int, to: int) -> nat
    decreases to - from,
{
    if to <= from {
        0
    } else {
        reach(a, from, to - 1) + axon_total(a[to - 1])
    }
}

/// Whether every populated coordinate's distance from `center` fits in a
/// `usize`.
pub open spec fn distances_fit(center: Coordinate, cs: Seq<Coordinate>) -> bool {
    forall|i: int| 0 <= i < cs.len() ==> distance(center, #[trigger] cs[i]) <= usize::MAX
}

/// The Manhattan distance, when it fits in a `usize`.
pub fn checked_distance(a: &Coordinate, b: &Coordinate) -> (r: Option<usize>)
    ensures
        r == if distance(*a, *b) <= usize::MAX {
            Some(distance(*a, *b) as usize)
        } else {
            None::<usize>
        },
{
    let mut dist: usize = 0;
    let mut i: u8 = 1;
    while i <= 9
        invariant
            1 <= i <= 10,
            dist == partial_distance(*a, *b, i - 1),
        decreases 10 - i,
    {
        proof {
            lemma_partial_distance_le(*a, *b, i as int, 9);
        }
        let dim = match Dimension::from_index(i) {
            Some(d) => d,
            None => Dimension::Scroll,
        };
        let va = a.get_dim(dim);
        let vb = b.get_dim(dim);
        let step = if va > vb {
            va - vb
        } else {
            vb - va
        };
        if dist > usize::MAX - step {
            return None;
        }
        dist = dist + step;
        i = i + 1;
    }
    Some(dist)
}

/// Whether a sentron can be built around `center` over `index`: every
/// distance and four times the number of scrolls fit in a `usize`.
pub fn sentron_fits(center: &Coordinate, index: &LatticeIndex) -> (r: bool)
    ensures
        r == (distances_fit(*center, coords_of(index@)) && 4 * coords_of(index@).len() <= usize::MAX),
{
    let coords = index.coordinates();
    let n = coords.len();
    if n > usize::MAX / 4 {
        return false;
    }
    let mut i: usize = 0;
    while i < n
        invariant
            0 <= i <= n,
            n == coords@.len(),
            coords@ == coords_of(index@),
            4 * n <= usize::MAX,
            forall|k: int| 0 <= k < i ==> distance(*center, #[trigger] coords@[k]) <= usize::MAX,
        decreases n - i,
    {
        if checked_distance(center, &coords[i]).is_none() {
            return false;
        }
        i = i + 1;
    }
    true
}

/// Inserts an entry into a list sorted by distance, after the entries that
/// are not farther.
fn insert_by_distance(v: &mut Vec<(Coordinate, usize)>, e: (Coordinate, usize))
    ensures
        final(v)@ == old(v)@.insert(distance_slot(old(v)@, e.1) as int, e),
{
    let ghost s = v@;
    let mut j = v.len();
    assert(s.take(j as int) =~= s);
    while j > 0 && e.1 < v[j - 1].1
        invariant
            0 <= j <= v@.len(),
            s == v@,
            distance_slot(s, e.1) == distance_slot(s.take(j as int), e.1),
        decreases j,
    {
        assert(s.take(j as int).drop_last() =~= s.take(j - 1));
        assert(s.take(j as int).last() == s[j - 1]);
        j = j - 1;
    }
    if j > 0 {
        assert(s.take(j as int).last() == s[j - 1]);
    }
    v.insert(j, e);
}

/// Totals and sums of axons stay within the number of coordinates.
proof fn lemma_axon_totals(center: Coordinate, cs: Seq<Coordinate>)
    ensures
        forall|i: int| 0 <= i < 8 ==> axon_total(#[trigger] axons_spec(center, cs)[i]) <= cs.len(),
{
    assert forall|i: int| 0 <= i < 8 implies axon_total(#[trigger] axons_spec(center, cs)[i]) <= cs.len() by {
        let (d, g) = axis(i);
        lemma_count_side_bound(cs, d, dim_val(center, d), false);
    }
}

impl Sentron {
    /// The sentron centered on `center`: its nearest populated coordinates
    /// with their axons, and the axons of the center.
    pub fn build(center: &Coordinate, index: &LatticeIndex) -> (r: Sentron)
        requires
            distances_fit(*center, coords_of(index@)),
            4 * coords_of(index@).len() <= usize::MAX,
        ensures
            r.center == *center,
            r.axons@ == axons_spec(*center, coords_of(index@)),
            r.max_axon_total == max_total(r.axons@, 8),
            r.structural_reach == reach(r.axons@, 0, 4),
            r.sequential_reach == reach(r.axons@, 4, 8),
            r.neurons@.len() == nearest_coordinates(*center, coords_of(index@)).len(),
            forall|i: int|
                0 <= i < r.neurons@.len() ==> {
                    let (c, d) = nearest_coordinates(*center, coords_of(index@))[i];
                    &&& (#[trigger] r.neurons@[i]).coordinate == c
                    &&& r.neurons@[i].distance == d
                    &&& r.neurons@[i].axons@ == axons_spec(c, coords_of(index@))
                },
    {
        let coords = index.coordinates();
        let ghost cs = coords@;
        let mut distances: Vec<(Coordinate, usize)> = Vec::new();
        let mut k: usize = 0;
        while k < coords.len()
            invariant
                0 <= k <= coords@.len(),
                cs == coords@,
                distances_fit(*center, cs),
                distances@ == sort_by_distance(by_distance(*center, cs).take(k as int)),
            decreases coords@.len() - k,
        {
            let c = coords[k];
            let d = coord_distance(center, &c);
            let ghost b = by_distance(*center, cs);
            assert(b.take(k + 1).drop_last() =~= b.take(k as int));
            assert(b.take(k + 1).last() == (c, d));
            insert_by_distance(&mut distances, (c, d));
            k = k + 1;
        }
        assert(by_distance(*center, cs).take(k as int) =~= by_distance(*center, cs));
        distances.truncate(SENTRON_CAPACITY);
        let axons = build_axons(center, index);
        proof {
            lemma_axon_totals(*center, cs);
        }
        let mut max_axon_total: usize = 0;
        let mut structural_reach: usize = 0;
        let mut sequential_reach: usize = 0;
        let mut i: usize = 0;
        while i < 8
            invariant
                0 <= i <= 8,
                axons@ == axons_spec(*center, cs),
                forall|j: int| 0 <= j < 8 ==> axon_total(#[trigger] axons@[j]) <= cs.len(),
                4 * cs.len() <= usize::MAX,
                max_axon_total == max_total(axons@, i as int),
                structural_reach == reach(axons@, 0, if i <= 4 { i as int } else { 4 }),
                sequential_reach == reach(axons@, 4, if i >= 4 { i as int } else { 4 }),
                structural_reach <= (if i <= 4 { i as int } else { 4 }) * cs.len(),
                sequential_reach <= (if i >= 4 { i - 4 } else { 0 }) * cs.len(),
            decreases 8 - i,
        {
            assert(axon_total(axons@[i as int]) <= cs.len());
            proof {
                let len = cs.len() as int;
                let a = if i <= 4 { i as int } else { 4 };
                let b = if i >= 4 { i - 4 } else { 0 };
                assert(a * len + len == (a + 1) * len) by (nonlinear_arith);
                assert(b * len + len == (b + 1) * len) by (nonlinear_arith);
                if i < 4 {
                    assert((a + 1) * len <= 4 * len) by (nonlinear_arith)
                        requires
                            a + 1 <= 4,
                            len >= 0,
                    ;
                } else {
                    assert((b + 1) * len <= 4 * len) by (nonlinear_arith)
                        requires
                            b + 1 <= 4,
                            len >= 0,
                    ;
                }
            }
            let t = axons[i].total();
            if t > max_axon_total {
                max_axon_total = t;
            }
            if i < 4 {
                structural_reach = structural_reach + t;
            } else {
                sequential_reach = sequential_reach + t;
            }
            i = i + 1;
        }
        let mut neurons: Vec<Neuron> = Vec::new();
        let mut n: usize = 0;
        let ghost near = nearest_coordinates(*center, cs);
        assert(distances@ == near);
        while n < distances.len()
            invariant
                0 <= n <= distances@.len(),
                distances@ == near,
                cs == coords_of(index@),
                neurons@.len() == n,
                forall|j: int|
                    0 <= j < n ==> {
                        let (c, d) = near[j];
                        &&& (#[trigger] neurons@[j]).coordinate == c
                        &&& neurons@[j].distance == d
                        &&& neurons@[j].axons@ == axons_spec(c, cs)
                    },
            decreases distances@.len() - n,
        {
            let (c, d) = distances[n];
            let ax = build_axons(&c, index);
            neurons.push(Neuron { coordinate: c, axons: ax, distance: d });
            n = n + 1;
        }
        Sentron { center: *center, neurons, axons, max_axon_total, structural_reach, sequential_reach }
    }

    /// The number of neurons.
    pub fn size(&self) -> (r: usize)
        ensures
            r == self.neurons@.len(),
    {
        self.neurons.len()
    }

    /// The spatial axons of the center: library, shelf, series, collection.
    pub fn structural_axons(&self) -> (r: &[Axon])
        ensures
            r@ == self.axons@.subrange(0, 4),
    {
        let (front, _) = self.axons.as_slice().split_at(4);
        assert(front@ =~= self.axons@.subrange(0, 4));
        front
    }

    /// The temporal axons of the center: volume, book, chapter, section.
    pub fn sequential_axons(&self) -> (r: &[Axon])
        ensures
            r@ == self.axons@.subrange(4, 8),
    {
        let (_, back) = self.axons.as_slice().split_at(4);
        assert(back@ =~= self.axons@.subrange(4, 8));
        back
    }
}


/// `n` right-aligned in two columns.
pub open spec fn pad2(n: nat) -> Seq<char> {
    if n < 10 {
        seq![' '] + dec_chars(n)
    } else {
        dec_chars(n)
    }
}

/// The density level, 0 to 4, of an axon reaching `t` coordinates when
/// the busiest axon reaches `m`: four times their ratio, rounded down.
pub open spec fn density_level(t: nat, m: nat) -> nat {
    if m == 0 {
        0
    } else if 4 * t / m > 4 {
        4
    } else {
        4 * t / m
    }
}

/// The block drawn for a density level.
pub open spec fn block_char(level: nat) -> char {
    if level == 0 {
        '·'
    } else if level == 1 {
        '░'
    } else if level == 2 {
        '▒'
    } else if level == 3 {
        '▓'
    } else {
        '█'
    }
}

/// The name cell of an axon: the first four letters of its dimension and a
/// space.
pub open spec fn name_cell(a: Axon) -> Seq<char> {
    dimension_name(a.dimension).take(4) + seq![' ']
}

/// A count cell: the sign, the count in two columns, the density block and
/// a space.
pub open spec fn count_cell(sign: char, n: usize, a: Axon, m: usize) -> Seq<char> {
    seq![sign] + pad2(n as nat) + seq![block_char(density_level(axon_total(a), m as nat)), ' ']
}

/// The name cells of axons `from..to`.
pub open spec fn name_cells(a: Seq<Axon>, from: int, to: int) -> Seq<char>
    decreases to - from,
{
    if to <= from {
        seq![]
    } else {
        name_cells(a, from, to - 1) + name_cell(a[to - 1])
    }
}

/// The count cells of axons `from..to`: forward counts with `+`, or
/// backward counts with `−`.
pub open spec fn count_cells(a: Seq<Axon>, from: int, to: int, forward: bool, m: usize) -> Seq<char>
    decreases to - from,
{
    if to <= from {
        seq![]
    } else {
        let x = a[to - 1];
        count_cells(a, from, to - 1, forward, m) + if forward {
            count_cell('+', x.forward_count, x, m)
        } else {
            count_cell('−', x.backward_count, x, m)
        }
    }
}

/// The name row of the topology.
pub open spec fn name_row(a: Seq<Axon>) -> Seq<char> {
    "│ "@ + name_cells(a, 0, 4) + "│  │ "@ + name_cells(a, 4, 8) + "│\n"@
}

/// A count row of the topology.
pub open spec fn count_row(a: Seq<Axon>, forward: bool, m: usize) -> Seq<char> {
    "│ "@ + count_cells(a, 0, 4, forward, m) + "│  │ "@ + count_cells(a, 4, 8, forward, m) + "│\n"@
}

/// The topology text of a sentron's axons: names, backward counts and
/// forward counts of the spatial and the temporal axes, boxed.
pub open spec fn topology_text(a: Seq<Axon>, m: usize) -> Seq<char> {
    "╭─ spatial ─────────╮  ╭─ temporal ────────╮\n"@ + name_row(a) + count_row(a, false, m)
        + count_row(a, true, m) + "╰────────────────────╯  ╰────────────────────╯"@
}

/// Appends `n` right-aligned in two columns.
fn push_pad2(v: &mut Vec<char>, n: usize)
    ensures
        final(v)@ == old(v)@ + pad2(n as nat),
{
    if n < 10 {
        v.push(' ');
    }
    let ghost mid = v@;
    push_dec_chars(v, n);
    assert(v@ =~= old(v)@ + pad2(n as nat));
}

/// The block for a density level.
fn block_of(level: usize) -> (r: char)
    ensures
        r == block_char(level as nat),
{
    if level == 0 {
        '·'
    } else if level == 1 {
        '░'
    } else if level == 2 {
        '▒'
    } else if level == 3 {
        '▓'
    } else {
        '█'
    }
}

/// Appends the count cell of an axon.
fn push_count_cell(v: &mut Vec<char>, a: &Axon, forward: bool, m: usize)
    ensures
        final(v)@ == old(v)@ + if forward {
            count_cell('+', a.forward_count, *a, m)
        } else {
            count_cell('−', a.backward_count, *a, m)
        },
{
    let ghost before = v@;
    if forward {
        v.push('+');
        push_pad2(v, a.forward_count);
    } else {
        v.push('−');
        push_pad2(v, a.backward_count);
    }
    let t = a.backward_count as u128 + a.forward_count as u128;
    let level = if m == 0 {
        0
    } else {
        let q = (4 * t) / (m as u128);
        if q > 4 {
            4
        } else {
            q as usize
        }
    };
    v.push(block_of(level));
    v.push(' ');
    assert(v@ =~= before + if forward {
        count_cell('+', a.forward_count, *a, m)
    } else {
        count_cell('−', a.backward_count, *a, m)
    });
}


impl Sentron {
    /// Appends the name cells of axons `from..to`.
    fn push_name_cells(&self, v: &mut Vec<char>, from: usize, to: usize)
        requires
            from <= to <= 8,
        ensures
            final(v)@ == old(v)@ + name_cells(self.axons@, from as int, to as int),
    {
        let mut i = from;
        let ghost start = v@;
        while i < to
            invariant
                from <= i <= to <= 8,
                v@ == start + name_cells(self.axons@, from as int, i as int),
            decreases to - i,
        {
            let a = self.axons[i];
            let name = a.dimension.name();
            let mut k: usize = 0;
            let ghost before = v@;
            proof {
                reveal_strlit("Scroll");
                reveal_strlit("Section");
                reveal_strlit("Chapter");
                reveal_strlit("Book");
                reveal_strlit("Volume");
                reveal_strlit("Collection");
                reveal_strlit("Series");
                reveal_strlit("Shelf");
                reveal_strlit("Library");
            }
            assert(name@.len() >= 4);
            while k < 4
                invariant
                    0 <= k <= 4,
                    name@.len() >= 4,
                    v@ == before + name@.take(k as int),
                decreases 4 - k,
            {
                v.push(name.get_char(k));
                assert(name@.take(k + 1) =~= name@.take(k as int).push(name@[k as int]));
                k = k + 1;
            }
            v.push(' ');
            assert(v@ =~= start + name_cells(self.axons@, from as int, i + 1));
            i = i + 1;
        }
    }

    /// Appends the count cells of axons `from..to`: backward counts with
    /// `−`, or forward counts with `+`.
    fn push_count_cells(&self, v: &mut Vec<char>, from: usize, to: usize, forward: bool)
        requires
            from <= to <= 8,
        ensures
            final(v)@ == old(v)@ + count_cells(self.axons@, from as int, to as int, forward, self.max_axon_total),
    {
        let mut i = from;
        let ghost start = v@;
        while i < to
            invariant
                from <= i <= to <= 8,
                v@ == start + count_cells(self.axons@, from as int, i as int, forward, self.max_axon_total),
            decreases to - i,
        {
            let a = self.axons[i];
            push_count_cell(v, &a, forward, self.max_axon_total);
            assert(v@ =~= start + count_cells(self.axons@, from as int, i + 1, forward, self.max_axon_total));
            i = i + 1;
        }
    }

    /// The sentron drawn as text: for each spatial and temporal axis of the
    /// center, its name and its backward and forward counts with a density
    /// block.
    pub fn topology_string(&self) -> (r: String)
        ensures
            r@ == topology_text(self.axons@, self.max_axon_total),
    {
        let mut v: Vec<char> = Vec::new();
        push_chars(&mut v, "╭─ spatial ─────────╮  ╭─ temporal ────────╮\n");
        let ghost s0 = v@;
        push_chars(&mut v, "│ ");
        self.push_name_cells(&mut v, 0, 4);
        push_chars(&mut v, "│  │ ");
        self.push_name_cells(&mut v, 4, 8);
        push_chars(&mut v, "│\n");
        assert(v@ =~= s0 + name_row(self.axons@));
        let ghost s1 = v@;
        push_chars(&mut v, "│ ");
        self.push_count_cells(&mut v, 0, 4, false);
        push_chars(&mut v, "│  │ ");
        self.push_count_cells(&mut v, 4, 8, false);
        push_chars(&mut v, "│\n");
        assert(v@ =~= s1 + count_row(self.axons@, false, self.max_axon_total));
        let ghost s2 = v@;
        push_chars(&mut v, "│ ");
        self.push_count_cells(&mut v, 0, 4, true);
        push_chars(&mut v, "│  │ ");
        self.push_count_cells(&mut v, 4, 8, true);
        push_chars(&mut v, "│\n");
        assert(v@ =~= s2 + count_row(self.axons@, true, self.max_axon_total));
        push_chars(&mut v, "╰────────────────────╯  ╰────────────────────╯");
        assert(v@ =~= topology_text(self.axons@, self.max_axon_total));
        string_from_chars(v.as_slice())
    }
}


/// A coordinate is at distance zero from itself.
pub proof fn lemma_distance_identity(a: Coordinate)
    ensures
        distance(a, a) == 0,
{
    assert forall|k: int| k <= 9 implies #[trigger] partial_distance(a, a, k) == 0 by {
        lemma_partial_distance_self(a, k);
    }
}

proof fn lemma_partial_distance_self(a: Coordinate, k: int)
    ensures
        partial_distance(a, a, k) == 0,
    decreases k,
{
    if k > 0 {
        lemma_partial_distance_self(a, k - 1);
    }
}

/// Distance is symmetric.
pub proof fn lemma_distance_symmetric(a: Coordinate, b: Coordinate)
    ensures
        distance(a, b) == distance(b, a),
{
    lemma_partial_distance_symmetric(a, b, 9);
}

proof fn lemma_partial_distance_symmetric(a: Coordinate, b: Coordinate, k: int)
    ensures
        partial_distance(a, b, k) == partial_distance(b, a, k),
    decreases k,
{
    if k > 0 {
        lemma_partial_distance_symmetric(a, b, k - 1);
    }
}

/// Sorting by distance keeps the number of entries.
proof fn lemma_sort_len(s: Seq<(Coordinate, usize)>)
    ensures
        sort_by_distance(s).len() == s.len(),
    decreases s.len(),
{
    if s.len() > 0 {
        lemma_sort_len(s.drop_last());
        lemma_slot_le(sort_by_distance(s.drop_last()), s.last().1);
    }
}

proof fn lemma_slot_le(s: Seq<(Coordinate, usize)>, d: usize)
    ensures
        distance_slot(s, d) <= s.len(),
    decreases s.len(),
{
    if s.len() > 0 {
        lemma_slot_le(s.drop_last(), d);
    }
}

/// A sentron holds every populated coordinate, up to forty of them.
pub proof fn lemma_sentron_size(center: Coordinate, cs: Seq<Coordinate>)
    ensures
        nearest_coordinates(center, cs).len() == if cs.len() <= SENTRON_CAPACITY {
            cs.len()
        } else {
            SENTRON_CAPACITY as nat
        },
{
    lemma_sort_len(by_distance(center, cs));
}

/// The nearest axial coordinate on one side is one of `cs`, lies on that
/// side along `d` only, and no axial coordinate of `cs` on that side lies
/// closer to `center` in `d`; there is none exactly when no coordinate of
/// `cs` is axial on that side.
pub proof fn lemma_nearest_side(cs: Seq<Coordinate>, center: Coordinate, d: Dimension, above: bool)
    ensures
        nearest_side(cs, center, d, above) matches Some((b, bd)) ==> {
            &&& cs.contains(b)
            &&& axial(center, b, d, above)
            &&& bd == abs_diff(dim_val(b, d), dim_val(center, d))
            &&& forall|y: Coordinate|
                cs.contains(y) && axial(center, y, d, above) ==> bd <= abs_diff(dim_val(y, d), dim_val(center, d))
        },
        nearest_side(cs, center, d, above) is None ==> forall|y: Coordinate|
            cs.contains(y) ==> !axial(center, y, d, above),
    decreases cs.len(),
{
    if cs.len() > 0 {
        let p = cs.drop_last();
        lemma_nearest_side(p, center, d, above);
        assert forall|y: Coordinate| cs.contains(y) && y != cs.last() implies p.contains(y) by {
            let k = choose|k: int| 0 <= k < cs.len() && cs[k] == y;
            assert(p[k] == y);
        }
        assert forall|y: Coordinate| p.contains(y) implies cs.contains(y) by {
            let k = choose|k: int| 0 <= k < p.len() && p[k] == y;
            assert(cs[k] == y);
        }
        assert(cs.contains(cs.last())) by {
            assert(cs[cs.len() - 1] == cs.last());
        }
    }
}

/// Each axon's nearest neighbour on a side is the populated coordinate
/// that differs from the centre only in the axon's dimension, on that
/// side, at the smallest distance there.
pub proof fn lemma_axon_nearest(center: Coordinate, cs: Seq<Coordinate>, i: int)
    requires
        0 <= i < 8,
    ensures
        ({
            let a = axon_spec(center, cs, i);
            let d = a.dimension;
            &&& a.forward_nearest matches Some(x) ==> {
                &&& cs.contains(x)
                &&& axial(center, x, d, true)
                &&& forall|y: Coordinate| cs.contains(y) && axial(center, y, d, true) ==> dim_val(x, d) <= dim_val(y, d)
            }
            &&& a.forward_nearest is None ==> forall|y: Coordinate| cs.contains(y) ==> !axial(center, y, d, true)
            &&& a.backward_nearest matches Some(x) ==> {
                &&& cs.contains(x)
                &&& axial(center, x, d, false)
                &&& forall|y: Coordinate| cs.contains(y) && axial(center, y, d, false) ==> dim_val(y, d) <= dim_val(x, d)
            }
            &&& a.backward_nearest is None ==> forall|y: Coordinate| cs.contains(y) ==> !axial(center, y, d, false)
        }),
{
    let d = axis(i).0;
    lemma_nearest_side(cs, center, d, true);
    lemma_nearest_side(cs, center, d, false);
}

} // verus!
