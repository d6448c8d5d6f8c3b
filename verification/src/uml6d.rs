//! A software-lifecycle reading of phext coordinates. The collection is
//! the lifecycle phase; volume, book, chapter, section and scroll form an
//! artifact's address (release, module, component, file, unit), the same
//! in every phase, so advancing the collection follows one artifact from
//! requirements through design, source, tests and docs. Library, shelf
//! and series are left to the user.
use vstd::prelude::*;

use crate::coordinate::{Coordinate, XCoordinate, YCoordinate, ZCoordinate};
use crate::index::{lookup, LatticeIndex};
use crate::text::{dec_chars, push_chars, push_dec_chars, string_from_chars};

verus! {

/// The nine lifecycle phases, collections 1 to 9.
#[derive(Debug, Clone, Copy, PartialEq, Eq, Structural, Hash)]
pub enum Phase {
    Meta,
    Requirements,
    Design,
    Source,
    Tests,
    Regressions,
    Docs,
    Whitepapers,
    Training,
}

/// The collection value of a phase.
pub open spec fn collection_of(p: Phase) -> usize {
    match p {
        Phase::Meta => 1,
        Phase::Requirements => 2,
        Phase::Design => 3,
        Phase::Source => 4,
        Phase::Tests => 5,
        Phase::Regressions => 6,
        Phase::Docs => 7,
        Phase::Whitepapers => 8,
        Phase::Training => 9,
    }
}

/// The phase of collection value `c`, for `1 <= c <= 9`.
pub open spec fn phase_of(c: usize) -> Option<Phase> {
    if c == 1 {
        Some(Phase::Meta)
    } else if c == 2 {
        Some(Phase::Requirements)
    } else if c == 3 {
        Some(Phase::Design)
    } else if c == 4 {
        Some(Phase::Source)
    } else if c == 5 {
        Some(Phase::Tests)
    } else if c == 6 {
        Some(Phase::Regressions)
    } else if c == 7 {
        Some(Phase::Docs)
    } else if c == 8 {
        Some(Phase::Whitepapers)
    } else if c == 9 {
        Some(Phase::Training)
    } else {
        None
    }
}

/// The name of a phase.
pub open spec fn phase_name(p: Phase) -> Seq<char> {
    match p {
        Phase::Meta => "Meta"@,
        Phase::Requirements => "Requirements"@,
        Phase::Design => "Design"@,
        Phase::Source => "Source"@,
        Phase::Tests => "Tests"@,
        Phase::Regressions => "Regressions"@,
        Phase::Docs => "Docs"@,
        Phase::Whitepapers => "Whitepapers"@,
        Phase::Training => "Training"@,
    }
}

/// The short tag of a phase.
pub open spec fn phase_short(p: Phase) -> Seq<char> {
    match p {
        Phase::Meta => "META"@,
        Phase::Requirements => "REQ"@,
        Phase::Design => "DES"@,
        Phase::Source => "SRC"@,
        Phase::Tests => "TST"@,
        Phase::Regressions => "REG"@,
        Phase::Docs => "DOC"@,
        Phase::Whitepapers => "WHP"@,
        Phase::Training => "TRN"@,
    }
}

/// The CSS color of a phase.
pub open spec fn phase_color(p: Phase) -> Seq<char> {
    match p {
        Phase::Meta => "#808080"@,
        Phase::Requirements => "#e8c547"@,
        Phase::Design => "#c964c9"@,
        Phase::Source => "#6bc96b"@,
        Phase::Tests => "#4dc9c9"@,
        Phase::Regressions => "#e07040"@,
        Phase::Docs => "#7090e0"@,
        Phase::Whitepapers => "#b0b0b0"@,
        Phase::Training => "#d4a855"@,
    }
}

/// All phases, in order.
pub open spec fn all_phases() -> Seq<Phase> {
    seq![
        Phase::Meta,
        Phase::Requirements,
        Phase::Design,
        Phase::Source,
        Phase::Tests,
        Phase::Regressions,
        Phase::Docs,
        Phase::Whitepapers,
        Phase::Training,
    ]
}

impl Phase {
    /// The phase of a collection value; `None` outside 1 to 9.
    pub fn from_collection(c: usize) -> (r: Option<Phase>)
        ensures
            r == phase_of(c),
    {
        match c {
            1 => Some(Phase::Meta),
            2 => Some(Phase::Requirements),
            3 => Some(Phase::Design),
            4 => Some(Phase::Source),
            5 => Some(Phase::Tests),
            6 => Some(Phase::Regressions),
            7 => Some(Phase::Docs),
            8 => Some(Phase::Whitepapers),
            9 => Some(Phase::Training),
            _ => None,
        }
    }

    /// The collection value of this phase.
    pub fn collection(&self) -> (r: usize)
        ensures
            r == collection_of(*self),
    {
        match self {
            Phase::Meta => 1,
            Phase::Requirements => 2,
            Phase::Design => 3,
            Phase::Source => 4,
            Phase::Tests => 5,
            Phase::Regressions => 6,
            Phase::Docs => 7,
            Phase::Whitepapers => 8,
            Phase::Training => 9,
        }
    }

    /// The phase's name.
    pub fn name(&self) -> (r: &'static str)
        ensures
            r@ == phase_name(*self),
    {
        match self {
            Phase::Meta => "Meta",
            Phase::Requirements => "Requirements",
            Phase::Design => "Design",
            Phase::Source => "Source",
            Phase::Tests => "Tests",
            Phase::Regressions => "Regressions",
            Phase::Docs => "Docs",
            Phase::Whitepapers => "Whitepapers",
            Phase::Training => "Training",
        }
    }

    /// The phase's short tag.
    pub fn short(&self) -> (r: &'static str)
        ensures
            r@ == phase_short(*self),
    {
        match self {
            Phase::Meta => "META",
            Phase::Requirements => "REQ",
            Phase::Design => "DES",
            Phase::Source => "SRC",
            Phase::Tests => "TST",
            Phase::Regressions => "REG",
            Phase::Docs => "DOC",
            Phase::Whitepapers => "WHP",
            Phase::Training => "TRN",
        }
    }

    /// The phase's CSS color.
    pub fn color(&self) -> (r: &'static str)
        ensures
            r@ == phase_color(*self),
    {
        match self {
            Phase::Meta => "#808080",
            Phase::Requirements => "#e8c547",
            Phase::Design => "#c964c9",
            Phase::Source => "#6bc96b",
            Phase::Tests => "#4dc9c9",
            Phase::Regressions => "#e07040",
            Phase::Docs => "#7090e0",
            Phase::Whitepapers => "#b0b0b0",
            Phase::Training => "#d4a855",
        }
    }

    /// All phases, in order.
    pub fn all() -> (r: [Phase; 9])
        ensures
            r@ == all_phases(),
    {
        let r = [
            Phase::Meta,
            Phase::Requirements,
            Phase::Design,
            Phase::Source,
            Phase::Tests,
            Phase::Regressions,
            Phase::Docs,
            Phase::Whitepapers,
            Phase::Training,
        ];
        assert(r@ =~= all_phases());
        r
    }
}

/// Reading a phase's collection value gives the phase back.
pub proof fn lemma_phase_roundtrip(p: Phase)
    ensures
        phase_of(collection_of(p)) == Some(p),
{
}

/// An artifact's address: the same in every phase.
#[derive(Debug, Clone, Copy, PartialEq, Eq, Structural, Hash)]
pub struct ArtifactAddr {
    /// Release.
    pub volume: usize,
    /// Module.
    pub book: usize,
    /// Component.
    pub chapter: usize,
    /// File.
    pub section: usize,
    /// Unit.
    pub scroll: usize,
}

/// The artifact address of a coordinate.
pub open spec fn addr_of(c: Coordinate) -> ArtifactAddr {
    ArtifactAddr { volume: c.y.volume, book: c.y.book, chapter: c.x.chapter, section: c.x.section, scroll: c.x.scroll }
}

/// The coordinate of an artifact in a phase, under the given library,
/// shelf and series.
pub open spec fn artifact_coordinate(a: ArtifactAddr, p: Phase, library: usize, shelf: usize, series: usize) -> Coordinate {
    Coordinate {
        z: ZCoordinate { library, shelf, series },
        y: YCoordinate { collection: collection_of(p), volume: a.volume, book: a.book },
        x: XCoordinate { chapter: a.chapter, section: a.section, scroll: a.scroll },
    }
}

/// An address written `volume.book.chapter/section.scroll`.
pub open spec fn addr_text(a: ArtifactAddr) -> Seq<char> {
    dec_chars(a.volume as nat) + seq!['.'] + dec_chars(a.book as nat) + seq!['.'] + dec_chars(a.chapter as nat)
        + seq!['/'] + dec_chars(a.section as nat) + seq!['.'] + dec_chars(a.scroll as nat)
}

impl ArtifactAddr {
    /// The artifact address of a coordinate.
    pub fn from_coordinate(c: &Coordinate) -> (r: ArtifactAddr)
        ensures
            r == addr_of(*c),
    {
        ArtifactAddr { volume: c.y.volume, book: c.y.book, chapter: c.x.chapter, section: c.x.section, scroll: c.x.scroll }
    }

    /// The artifact's coordinate in a phase, with library, shelf and series
    /// 1.
    pub fn to_coordinate(&self, phase: Phase) -> (r: Coordinate)
        ensures
            r == artifact_coordinate(*self, phase, 1, 1, 1),
    {
        self.to_coordinate_with_outer(phase, 1, 1, 1)
    }

    /// The artifact's coordinate in a phase, under the given library, shelf
    /// and series.
    pub fn to_coordinate_with_outer(&self, phase: Phase, library: usize, shelf: usize, series: usize) -> (r: Coordinate)
        ensures
            r == artifact_coordinate(*self, phase, library, shelf, series),
    {
        Coordinate {
            z: ZCoordinate { library, shelf, series },
            y: YCoordinate { collection: phase.collection(), volume: self.volume, book: self.book },
            x: XCoordinate { chapter: self.chapter, section: self.section, scroll: self.scroll },
        }
    }

    /// The address written `volume.book.chapter/section.scroll`.
    pub fn display(&self) -> (r: String)
        ensures
            r@ == addr_text(*self),
    {
        let mut v: Vec<char> = Vec::new();
        push_dec_chars(&mut v, self.volume);
        v.push('.');
        push_dec_chars(&mut v, self.book);
        v.push('.');
        push_dec_chars(&mut v, self.chapter);
        v.push('/');
        push_dec_chars(&mut v, self.section);
        v.push('.');
        push_dec_chars(&mut v, self.scroll);
        assert(v@ =~= addr_text(*self));
        string_from_chars(v.as_slice())
    }
}

/// Reading a coordinate's address and placing it back in the coordinate's
/// own phase and outer dimensions gives the coordinate back.
pub proof fn lemma_address_roundtrip(c: Coordinate, p: Phase)
    requires
        collection_of(p) == c.y.collection,
    ensures
        artifact_coordinate(addr_of(c), p, c.z.library, c.z.shelf, c.z.series) == c,
{
}

/// The lifecycle reading of one coordinate.
#[derive(Debug, Clone)]
pub struct UmlContext {
    pub phase: Option<Phase>,
    pub phase_name: String,
    pub artifact: ArtifactAddr,
    pub artifact_label: String,
}

impl UmlContext {
    /// The phase (and its name, or `Phase N` for other collections) and
    /// the artifact address of a coordinate.
    pub fn from_coordinate(c: &Coordinate) -> (r: UmlContext)
        ensures
            r.phase == phase_of(c.y.collection),
            r.phase_name@ == match phase_of(c.y.collection) {
                Some(p) => phase_name(p),
                None => "Phase "@ + dec_chars(c.y.collection as nat),
            },
            r.artifact == addr_of(*c),
            r.artifact_label@ == addr_text(addr_of(*c)),
    {
        let phase = Phase::from_collection(c.y.collection);
        let artifact = ArtifactAddr::from_coordinate(c);
        let phase_name = match phase {
            Some(p) => p.name().to_owned(),
            None => {
                let mut v: Vec<char> = Vec::new();
                push_chars(&mut v, "Phase ");
                push_dec_chars(&mut v, c.y.collection);
                string_from_chars(v.as_slice())
            },
        };
        let artifact_label = artifact.display();
        UmlContext { phase, phase_name, artifact, artifact_label }
    }
}

/// For each phase in order, whether the artifact has content there.
pub fn trace_artifact(addr: &ArtifactAddr, index: &LatticeIndex, library: usize, shelf: usize, series: usize) -> (r: Vec<(Phase, bool)>)
    ensures
        r@.len() == 9,
        forall|i: int|
            0 <= i < 9 ==> (#[trigger] r@[i]).0 == all_phases()[i] && r@[i].1 == (lookup(
                index@,
                artifact_coordinate(*addr, all_phases()[i], library, shelf, series),
            ) is Some),
{
    let phases = Phase::all();
    let mut r: Vec<(Phase, bool)> = Vec::new();
    let mut i: usize = 0;
    while i < 9
        invariant
            0 <= i <= 9,
            phases@ == all_phases(),
            r@.len() == i,
            forall|k: int|
                0 <= k < i ==> (#[trigger] r@[k]).0 == all_phases()[k] && r@[k].1 == (lookup(
                    index@,
                    artifact_coordinate(*addr, all_phases()[k], library, shelf, series),
                ) is Some),
        decreases 9 - i,
    {
        let phase = phases[i];
        let coord = addr.to_coordinate_with_outer(phase, library, shelf, series);
        let populated = index.contains(&coord);
        r.push((phase, populated));
        i = i + 1;
    }
    r
}

/// Address order: by volume, book, chapter, section, then scroll.
pub open spec fn addr_lt(a: ArtifactAddr, b: ArtifactAddr) -> bool {
    a.volume < b.volume || (a.volume == b.volume && (a.book < b.book || (a.book == b.book && (a.chapter
        < b.chapter || (a.chapter == b.chapter && (a.section < b.section || (a.section == b.section
        && a.scroll < b.scroll)))))))
}

/// Whether `a` comes before `b` in address order.
fn addr_before(a: &ArtifactAddr, b: &ArtifactAddr) -> (r: bool)
    ensures
        r == addr_lt(*a, *b),
{
    if a.volume != b.volume {
        return a.volume < b.volume;
    }
    if a.book != b.book {
        return a.book < b.book;
    }
    if a.chapter != b.chapter {
        return a.chapter < b.chapter;
    }
    if a.section != b.section {
        return a.section < b.section;
    }
    a.scroll < b.scroll
}

/// Whether the addresses are strictly increasing.
pub open spec fn addrs_sorted(s: Seq<ArtifactAddr>) -> bool {
    forall|i: int, j: int| 0 <= i < j < s.len() ==> addr_lt(#[trigger] s[i], #[trigger] s[j])
}

/// Whether `a` is the address of one of `cs` in phase `p`.
pub open spec fn addr_in_phase(cs: Seq<Coordinate>, p: Phase, a: ArtifactAddr) -> bool {
    exists|k: int| 0 <= k < cs.len() && (#[trigger] cs[k]).y.collection == collection_of(p) && addr_of(cs[k]) == a
}

/// Adds an address to a strictly increasing list unless it is there.
fn insert_addr(v: &mut Vec<ArtifactAddr>, a: ArtifactAddr)
    requires
        addrs_sorted(old(v)@),
    ensures
        addrs_sorted(final(v)@),
        forall|x: ArtifactAddr| final(v)@.contains(x) <==> (old(v)@.contains(x) || x == a),
{
    let mut p: usize = 0;
    while p < v.len() && addr_before(&v[p], &a)
        invariant
            0 <= p <= v@.len(),
            forall|i: int| 0 <= i < p ==> addr_lt(#[trigger] v@[i], a),
        decreases v@.len() - p,
    {
        p = p + 1;
    }
    if p < v.len() && v[p] == a {
        assert(v@[p as int] == a);
        return;
    }
    let ghost old_v = v@;
    v.insert(p, a);
    proof {
        assert forall|i: int, j: int| 0 <= i < j < v@.len() implies addr_lt(#[trigger] v@[i], #[trigger] v@[j]) by {
            if p < old_v.len() {
                assert(!addr_lt(old_v[p as int], a));
                assert(old_v[p as int] != a);
            }
            if i < p && j == p {
            } else if i < p && j > p {
                assert(v@[j] == old_v[j - 1]);
                if p < old_v.len() && p < j - 1 {
                    assert(addr_lt(old_v[p as int], old_v[j - 1]));
                }
            } else if i == p {
                assert(v@[j] == old_v[j - 1]);
                if p < j - 1 {
                    assert(addr_lt(old_v[p as int], old_v[j - 1]));
                }
            } else if i > p {
                assert(v@[i] == old_v[i - 1]);
                assert(v@[j] == old_v[j - 1]);
            } else {
                assert(v@[i] == old_v[i] && v@[j] == old_v[j]);
            }
        }
        assert(old_v == old(v)@);
        assert forall|x: ArtifactAddr| #[trigger] v@.contains(x) <==> (old_v.contains(x) || x == a) by {
            if v@.contains(x) {
                let i = choose|i: int| 0 <= i < v@.len() && v@[i] == x;
                if i < p {
                    assert(old_v[i] == x);
                } else if i > p {
                    assert(old_v[i - 1] == x);
                }
            }
            if old_v.contains(x) {
                let i = choose|i: int| 0 <= i < old_v.len() && old_v[i] == x;
                if i < p {
                    assert(v@[i] == x);
                } else {
                    assert(v@[i + 1] == x);
                }
            }
            if x == a {
                assert(v@[p as int] == a);
            }
        }
    }
}

/// The addresses of the coordinates in a phase, each once, in address
/// order.
pub fn artifacts_in_phase(phase: Phase, index: &LatticeIndex, coords: &[Coordinate]) -> (r: Vec<ArtifactAddr>)
    ensures
        addrs_sorted(r@),
        forall|a: ArtifactAddr| r@.contains(a) <==> addr_in_phase(coords@, phase, a),
{
    let _ = index;
    let want = phase.collection();
    let mut addrs: Vec<ArtifactAddr> = Vec::new();
    let mut k: usize = 0;
    while k < coords.len()
        invariant
            0 <= k <= coords@.len(),
            want == collection_of(phase),
            addrs_sorted(addrs@),
            forall|a: ArtifactAddr| addrs@.contains(a) <==> addr_in_phase(coords@.take(k as int), phase, a),
        decreases coords@.len() - k,
    {
        let c = coords[k];
        let ghost pre = coords@.take(k as int);
        let ghost post = coords@.take(k + 1);
        assert(post[k as int] == c);
        if c.y.collection == want {
            insert_addr(&mut addrs, ArtifactAddr::from_coordinate(&c));
        }
        assert forall|a: ArtifactAddr| addrs@.contains(a) <==> addr_in_phase(post, phase, a) by {
            if addr_in_phase(pre, phase, a) {
                let j = choose|j: int| 0 <= j < pre.len() && (#[trigger] pre[j]).y.collection == collection_of(phase) && addr_of(pre[j]) == a;
                assert(post[j] == pre[j]);
            }
            if addr_in_phase(post, phase, a) {
                let j = choose|j: int| 0 <= j < post.len() && (#[trigger] post[j]).y.collection == collection_of(phase) && addr_of(post[j]) == a;
                if j < k {
                    assert(pre[j] == post[j]);
                }
            }
        }
        k = k + 1;
    }
    assert(coords@.take(k as int) =~= coords@);
    addrs
}

/// The lifecycle order fixes the collection values: the `i`-th phase of
/// Meta, Requirements, Design, Source, Tests, Regressions, Docs,
/// Whitepapers, Training lives in collection `i + 1`, and collection
/// `i + 1` reads back as that phase, named in that order.
pub proof fn lemma_phase_order(i: int)
    requires
        0 <= i < 9,
    ensures
        collection_of(all_phases()[i]) == i + 1,
        phase_of((i + 1) as usize) == Some(all_phases()[i]),
        phase_name(all_phases()[i]) == seq![
            "Meta"@,
            "Requirements"@,
            "Design"@,
            "Source"@,
            "Tests"@,
            "Regressions"@,
            "Docs"@,
            "Whitepapers"@,
            "Training"@,
        ][i],
{
}

} // verus!
