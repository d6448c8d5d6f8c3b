//! The logic of the lifecycle editor's HTTP interface: which request a
//! method and path name, who may make it, how coordinates are read from
//! request text, and what each request does to the editor's state.
use vstd::prelude::*;

use vstd::utf8::encode_utf8;

use crate::coordinate::{base_coordinate, coordinate_text, default_coordinate, Coordinate, XCoordinate, YCoordinate, ZCoordinate};
use crate::coordinate_ext::{
    broken, clamp_value, dim_val, dimension_name, dimension_of_rank, rank, reset_below, with_val, Dimension,
};
use crate::index::{coords_of, is_next_after, lookup, ScrollSpan};
use crate::mmap::{mapped_bytes, MappedLattice};
use crate::cursor::Position;
use memmap2::Mmap;
use crate::navigator::{navigator_wf, visited, Navigator, NavigatorView};
use crate::stats::{content_total, describes, overview_fits, LatticeOverview};
use crate::tts::{chars_before, text_lt};
use crate::sentron::{axons_spec, distances_fit, nearest_coordinates, reach, sentron_fits, Axon, Sentron};
use crate::uml6d::{
    addr_of, addr_text, all_phases, artifact_coordinate, collection_of, phase_color, phase_name, phase_of, phase_short,
    Phase, UmlContext,
};
use crate::stats::{is_distribution, DimensionDensity};
use crate::index::distinct_count;
use crate::text::{
    dec_chars, push_chars, push_dec_chars,
    chars_eq, chars_vec, is_white_space, parse_usize_chars, parse_usize_chars_spec, split_chars,
    split_on, trim_end, trim_start, trimmed_range, slice_range_chars, string_from_chars,
};

verus! {

/// The requests the interface answers, with the text a path carries.
#[derive(Debug, Clone, PartialEq, Eq)]
pub enum Route {
    /// A CORS preflight (`OPTIONS`, any path).
    Preflight,
    /// The editor page.
    Page,
    /// The phext files that can be opened.
    Phexts,
    /// Open another file (path in the body).
    Open,
    /// Everything the navigator panel shows.
    Nav,
    /// Size and state of the open file.
    Status,
    /// Every populated coordinate.
    Tree,
    /// Select a dimension (key in the body).
    Dim,
    /// Step forward in the active dimension.
    Forward,
    /// Step backward in the active dimension.
    Backward,
    /// Jump to the next populated coordinate.
    Next,
    /// Jump to the previous populated coordinate.
    Prev,
    /// Jump to a coordinate (in the body).
    Goto,
    /// Jump to the origin.
    Base,
    /// Switch phase at the same artifact (collection in the body).
    Phase,
    /// Write a scroll (JSON body).
    Update,
    /// Save the file.
    Save,
    /// Search the text (query in the body).
    Search,
    /// The Z arms that hold scrolls.
    ZoomZ,
    /// The Y arms under a Z arm.
    ZoomY(String),
    /// The scrolls under a Z and a Y arm.
    ZoomX(String, String),
    /// A `zoom/x` path without the second arm.
    ZoomXMalformed,
    /// One scroll's content (coordinate in the path).
    Scroll(String),
    /// Anything else.
    NotFound,
}

/// A route with its texts as character sequences.
pub enum RouteView {
    Preflight,
    Page,
    Phexts,
    Open,
    Nav,
    Status,
    Tree,
    Dim,
    Forward,
    Backward,
    Next,
    Prev,
    Goto,
    Base,
    Phase,
    Update,
    Save,
    Search,
    ZoomZ,
    ZoomY(Seq<char>),
    ZoomX(Seq<char>, Seq<char>),
    ZoomXMalformed,
    Scroll(Seq<char>),
    NotFound,
}

impl View for Route {
    type V = RouteView;

    open spec fn view(&self) -> RouteView {
        match self {
            Route::Preflight => RouteView::Preflight,
            Route::Page => RouteView::Page,
            Route::Phexts => RouteView::Phexts,
            Route::Open => RouteView::Open,
            Route::Nav => RouteView::Nav,
            Route::Status => RouteView::Status,
            Route::Tree => RouteView::Tree,
            Route::Dim => RouteView::Dim,
            Route::Forward => RouteView::Forward,
            Route::Backward => RouteView::Backward,
            Route::Next => RouteView::Next,
            Route::Prev => RouteView::Prev,
            Route::Goto => RouteView::Goto,
            Route::Base => RouteView::Base,
            Route::Phase => RouteView::Phase,
            Route::Update => RouteView::Update,
            Route::Save => RouteView::Save,
            Route::Search => RouteView::Search,
            Route::ZoomZ => RouteView::ZoomZ,
            Route::ZoomY(z) => RouteView::ZoomY(z@),
            Route::ZoomX(z, y) => RouteView::ZoomX(z@, y@),
            Route::ZoomXMalformed => RouteView::ZoomXMalformed,
            Route::Scroll(c) => RouteView::Scroll(c@),
            Route::NotFound => RouteView::NotFound,
        }
    }
}

/// Whether `p` begins with `pre`.
pub open spec fn has_char_prefix(p: Seq<char>, pre: Seq<char>) -> bool {
    pre.len() <= p.len() && p.take(pre.len() as int) == pre
}

/// The first position of `c` in `s`.
pub open spec fn first_index_of(s: Seq<char>, c: char) -> Option<nat>
    decreases s.len(),
{
    if s.len() == 0 {
        None
    } else {
        match first_index_of(s.drop_last(), c) {
            Some(i) => Some(i),
            None => if s.last() == c {
                Some((s.len() - 1) as nat)
            } else {
                None
            },
        }
    }
}

/// The route that a `zoom/x` remainder names: the text before the first
/// slash and the rest, or a malformed route when there is no slash.
pub open spec fn zoom_x_route(rest: Seq<char>) -> RouteView {
    match first_index_of(rest, '/') {
        Some(i) => RouteView::ZoomX(rest.take(i as int), rest.skip((i + 1) as int)),
        None => RouteView::ZoomXMalformed,
    }
}

/// The route of a request, tried in order: `OPTIONS`, then the exact
/// method and path pairs, then the `GET` paths that carry text after a
/// prefix.
pub open spec fn route_spec(m: Seq<char>, p: Seq<char>) -> RouteView {
    if m == "OPTIONS"@ {
        RouteView::Preflight
    } else if m == "GET"@ && (p == "/"@ || p == "/index.html"@) {
        RouteView::Page
    } else if m == "GET"@ && p == "/api/phexts"@ {
        RouteView::Phexts
    } else if m == "POST"@ && p == "/api/open"@ {
        RouteView::Open
    } else if m == "GET"@ && p == "/api/nav"@ {
        RouteView::Nav
    } else if m == "GET"@ && p == "/api/status"@ {
        RouteView::Status
    } else if m == "GET"@ && p == "/api/tree"@ {
        RouteView::Tree
    } else if m == "POST"@ && p == "/api/dim"@ {
        RouteView::Dim
    } else if m == "POST"@ && p == "/api/forward"@ {
        RouteView::Forward
    } else if m == "POST"@ && p == "/api/backward"@ {
        RouteView::Backward
    } else if m == "POST"@ && p == "/api/next"@ {
        RouteView::Next
    } else if m == "POST"@ && p == "/api/prev"@ {
        RouteView::Prev
    } else if m == "POST"@ && p == "/api/goto"@ {
        RouteView::Goto
    } else if m == "POST"@ && p == "/api/base"@ {
        RouteView::Base
    } else if m == "POST"@ && p == "/api/phase"@ {
        RouteView::Phase
    } else if m == "POST"@ && p == "/api/update"@ {
        RouteView::Update
    } else if m == "POST"@ && p == "/api/save"@ {
        RouteView::Save
    } else if m == "POST"@ && p == "/api/search"@ {
        RouteView::Search
    } else if m == "GET"@ && p == "/api/zoom/z"@ {
        RouteView::ZoomZ
    } else if m == "GET"@ && has_char_prefix(p, "/api/zoom/y/"@) {
        RouteView::ZoomY(p.skip("/api/zoom/y/"@.len() as int))
    } else if m == "GET"@ && has_char_prefix(p, "/api/zoom/x/"@) {
        zoom_x_route(p.skip("/api/zoom/x/"@.len() as int))
    } else if m == "GET"@ && has_char_prefix(p, "/api/scroll/"@) {
        RouteView::Scroll(p.skip("/api/scroll/"@.len() as int))
    } else {
        RouteView::NotFound
    }
}

/// Whether `p[0..]` begins with `lit`; the length of `lit` when it does.
fn prefix_len(p: &[char], lit: &str) -> (r: Option<usize>)
    ensures
        match r {
            Some(n) => n == lit@.len() && has_char_prefix(p@, lit@),
            None => !has_char_prefix(p@, lit@),
        },
{
    let n = lit.unicode_len();
    if n > p.len() {
        return None;
    }
    if chars_eq(p, 0, n, lit) {
        assert(p@.subrange(0, n as int) =~= p@.take(n as int));
        Some(n)
    } else {
        assert(p@.subrange(0, n as int) =~= p@.take(n as int));
        None
    }
}

/// The position of the first `c` in `s`.
fn find_char(s: &[char], c: char) -> (r: Option<usize>)
    ensures
        r matches Some(i) ==> first_index_of(s@, c) == Some(i as nat) && i < s@.len(),
        r is None ==> first_index_of(s@, c) is None,
{
    let n = s.len();
    let mut i: usize = 0;
    while i < n
        invariant
            0 <= i <= n,
            n == s@.len(),
            first_index_of(s@.take(i as int), c) is None,
        decreases n - i,
    {
        assert(s@.take(i + 1).drop_last() =~= s@.take(i as int));
        if s[i] == c {
            proof {
                lemma_first_index_prefix(s@, c, i as int + 1);
            }
            return Some(i);
        }
        i = i + 1;
    }
    assert(s@.take(n as int) =~= s@);
    None
}

/// A first position found in a prefix is the first position in the whole.
proof fn lemma_first_index_prefix(s: Seq<char>, c: char, k: int)
    requires
        0 <= k <= s.len(),
        first_index_of(s.take(k), c) is Some,
    ensures
        first_index_of(s, c) == first_index_of(s.take(k), c),
    decreases s.len() - k,
{
    if k < s.len() {
        assert(s.take(k + 1).drop_last() =~= s.take(k));
        lemma_first_index_prefix(s, c, k + 1);
    } else {
        assert(s.take(k) =~= s);
    }
}

/// Whether `m` is exactly `lit`.
fn is_text(m: &[char], lit: &str) -> (r: bool)
    ensures
        r == (m@ == lit@),
{
    let r = chars_eq(m, 0, m.len(), lit);
    assert(m@.subrange(0, m@.len() as int) =~= m@);
    r
}

/// Which editor is served: the plain one (navigation, search and
/// reading) or the lifecycle one (also phases, zoom tiers, editing,
/// saving and opening files).
#[derive(Debug, Clone, Copy, PartialEq, Eq, Structural)]
pub enum Flavor {
    Plain,
    Lifecycle,
}

/// Whether an editor answers a route; the plain editor answers only the
/// page, navigation, status, search and scroll reads.
pub open spec fn serves_spec(flavor: Flavor, r: RouteView) -> bool {
    flavor == Flavor::Lifecycle || match r {
        RouteView::Page | RouteView::Nav | RouteView::Status | RouteView::Dim | RouteView::Forward
        | RouteView::Backward | RouteView::Next | RouteView::Prev | RouteView::Goto | RouteView::Base
        | RouteView::Search | RouteView::Scroll(_) => true,
        _ => false,
    }
}

/// Whether an editor answers a route.
pub fn serves(flavor: Flavor, r: &Route) -> (b: bool)
    ensures
        b == serves_spec(flavor, r@),
{
    match flavor {
        Flavor::Lifecycle => true,
        Flavor::Plain => match r {
            Route::Page | Route::Nav | Route::Status | Route::Dim | Route::Forward | Route::Backward | Route::Next
            | Route::Prev | Route::Goto | Route::Base | Route::Search | Route::Scroll(_) => true,
            _ => false,
        },
    }
}

/// The route a request names.
#[verifier::rlimit(40)]
pub fn route(method: &str, path: &str) -> (r: Route)
    ensures
        r@ == route_spec(method@, path@),
{
    let m = chars_vec(method);
    let p = chars_vec(path);
    let get = is_text(&m, "GET");
    let post = is_text(&m, "POST");
    if is_text(&m, "OPTIONS") {
        return Route::Preflight;
    }
    if get && (is_text(&p, "/") || is_text(&p, "/index.html")) {
        return Route::Page;
    }
    if get && is_text(&p, "/api/phexts") {
        return Route::Phexts;
    }
    if post && is_text(&p, "/api/open") {
        return Route::Open;
    }
    if get && is_text(&p, "/api/nav") {
        return Route::Nav;
    }
    if get && is_text(&p, "/api/status") {
        return Route::Status;
    }
    if get && is_text(&p, "/api/tree") {
        return Route::Tree;
    }
    if post && is_text(&p, "/api/dim") {
        return Route::Dim;
    }
    if post && is_text(&p, "/api/forward") {
        return Route::Forward;
    }
    if post && is_text(&p, "/api/backward") {
        return Route::Backward;
    }
    if post && is_text(&p, "/api/next") {
        return Route::Next;
    }
    if post && is_text(&p, "/api/prev") {
        return Route::Prev;
    }
    if post && is_text(&p, "/api/goto") {
        return Route::Goto;
    }
    if post && is_text(&p, "/api/base") {
        return Route::Base;
    }
    if post && is_text(&p, "/api/phase") {
        return Route::Phase;
    }
    if post && is_text(&p, "/api/update") {
        return Route::Update;
    }
    if post && is_text(&p, "/api/save") {
        return Route::Save;
    }
    if post && is_text(&p, "/api/search") {
        return Route::Search;
    }
    if get && is_text(&p, "/api/zoom/z") {
        return Route::ZoomZ;
    }
    route_prefixed(get, &p)
}

/// The routes that carry text after a path prefix.
fn route_prefixed(get: bool, p: &Vec<char>) -> (r: Route)
    ensures
        r@ == if get && has_char_prefix(p@, "/api/zoom/y/"@) {
            RouteView::ZoomY(p@.skip("/api/zoom/y/"@.len() as int))
        } else if get && has_char_prefix(p@, "/api/zoom/x/"@) {
            zoom_x_route(p@.skip("/api/zoom/x/"@.len() as int))
        } else if get && has_char_prefix(p@, "/api/scroll/"@) {
            RouteView::Scroll(p@.skip("/api/scroll/"@.len() as int))
        } else {
            RouteView::NotFound
        },
{
    if !get {
        return Route::NotFound;
    }
    let n = p.len();
    if let Some(k) = prefix_len(p.as_slice(), "/api/zoom/y/") {
        let rest = slice_range_chars(p.as_slice(), k, n);
        assert(rest@ =~= p@.skip(k as int));
        return Route::ZoomY(string_from_chars(rest));
    }
    if let Some(k) = prefix_len(p.as_slice(), "/api/zoom/x/") {
        let rest = slice_range_chars(p.as_slice(), k, n);
        assert(rest@ =~= p@.skip(k as int));
        match find_char(rest, '/') {
            Some(i) => {
                let a = slice_range_chars(rest, 0, i);
                let b = slice_range_chars(rest, i + 1, rest.len());
                assert(a@ =~= rest@.take(i as int));
                assert(b@ =~= rest@.skip(i + 1));
                return Route::ZoomX(string_from_chars(a), string_from_chars(b));
            },
            None => {
                return Route::ZoomXMalformed;
            },
        }
    }
    if let Some(k) = prefix_len(p.as_slice(), "/api/scroll/") {
        let rest = slice_range_chars(p.as_slice(), k, n);
        assert(rest@ =~= p@.skip(k as int));
        return Route::Scroll(string_from_chars(rest));
    }
    Route::NotFound
}

/// Whether `c` is `l`, or its ASCII capital when `l` is a small letter.
pub open spec fn same_letter(c: char, l: char) -> bool {
    c == l || ('a' <= l <= 'z' && c as u32 == l as u32 - 32)
}

/// Whether a header value starts with `Bearer ` in any letter case.
pub open spec fn bearer_prefix(h: Seq<char>) -> bool {
    h.len() >= 7 && forall|i: int| 0 <= i < 7 ==> same_letter(#[trigger] h[i], "bearer "@[i])
}

/// The token an `Authorization` header value offers: what follows
/// `Bearer `, or the whole value, trimmed of white space.
pub open spec fn offered_token(h: Seq<char>) -> Seq<char> {
    if bearer_prefix(h) {
        trim_end(trim_start(h.skip(7)))
    } else {
        trim_end(trim_start(h))
    }
}

/// Whether a request for `path` may be served: the page is open to all,
/// and the rest needs the configured token, if there is one.
pub open spec fn authorized_spec(path: Seq<char>, token: Option<Seq<char>>, header: Seq<char>) -> bool {
    path == "/"@ || path == "/index.html"@ || match token {
        None => true,
        Some(t) => offered_token(header) == t,
    }
}

/// Whether a request for `path` with the `Authorization` value `header`
/// may be served. (A case-insensitive `bearer ` prefix is exactly an ASCII
/// case-insensitive one: no other character lower-cases into it.)
pub fn authorized(path: &str, token: Option<&str>, header: &str) -> (r: bool)
    ensures
        r == authorized_spec(path@, match token { Some(t) => Some(t@), None => None }, header@),
{
    let p = chars_vec(path);
    if is_text(&p, "/") || is_text(&p, "/index.html") {
        return true;
    }
    let t = match token {
        None => {
            return true;
        },
        Some(t) => t,
    };
    let h = chars_vec(header);
    let lit = chars_vec("bearer ");
    proof {
        reveal_strlit("bearer ");
    }
    let mut bearer = h.len() >= 7;
    let mut i: usize = 0;
    while bearer && i < 7
        invariant
            0 <= i <= 7,
            lit@ == "bearer "@,
            lit@.len() == 7,
            h@ == header@,
            bearer ==> h@.len() >= 7 && forall|k: int| 0 <= k < i ==> same_letter(#[trigger] h@[k], "bearer "@[k]),
            !bearer ==> !bearer_prefix(h@),
        decreases 7 - i,
    {
        let c = h[i];
        let l = lit[i];
        let same = c == l || ('a' <= l && l <= 'z' && (c as u32) == (l as u32) - 32);
        if !same {
            bearer = false;
            assert(!same_letter(h@[i as int], "bearer "@[i as int]));
        }
        i = i + 1;
    }
    let start: usize = if bearer {
        7
    } else {
        0
    };
    let rest = slice_range_chars(h.as_slice(), start, h.len());
    assert(rest@ =~= (if bearer_prefix(header@) { header@.skip(7) } else { header@ }));
    let (a, b) = trimmed_range(rest);
    let offered = slice_range_chars(rest, a, b);
    assert(offered@ == offered_token(header@));
    let tc = chars_vec(t);
    let n = offered.len();
    if n != tc.len() {
        return false;
    }
    let mut k: usize = 0;
    while k < n
        invariant
            0 <= k <= n,
            n == offered@.len(),
            n == tc@.len(),
            offered@ == offered_token(header@),
            tc@ == t@,
            token == Some(t),
            !(path@ == "/"@ || path@ == "/index.html"@),
            forall|q: int| 0 <= q < k ==> offered@[q] == tc@[q],
        decreases n - k,
    {
        if offered[k] != tc[k] {
            assert(offered@[k as int] != tc@[k as int]);
            return false;
        }
        k = k + 1;
    }
    assert(offered@ =~= tc@);
    true
}

/// The numbers among the pieces, in order; pieces that are not a number
/// are skipped.
pub open spec fn usize_values(parts: Seq<Seq<char>>) -> Seq<usize>
    decreases parts.len(),
{
    if parts.len() == 0 {
        seq![]
    } else {
        let rest = usize_values(parts.drop_last());
        match parse_usize_chars_spec(parts.last()) {
            Some(v) => rest.push(v),
            None => rest,
        }
    }
}

/// The three values of an arm written `a.b.c`, if exactly three of its
/// dot-separated pieces are numbers.
pub open spec fn arm_values(s: Seq<char>) -> Option<(usize, usize, usize)> {
    let v = usize_values(split_on(s, '.'));
    if v.len() == 3 {
        Some((v[0], v[1], v[2]))
    } else {
        None
    }
}

/// A coordinate read from `z/y/x` text: three slash-separated arms, each
/// with exactly three numbers.
pub open spec fn coordinate_from_text(s: Seq<char>) -> Option<Coordinate> {
    let parts = split_on(s, '/');
    if parts.len() != 3 {
        None
    } else {
        match (arm_values(parts[0]), arm_values(parts[1]), arm_values(parts[2])) {
            (Some(z), Some(y), Some(x)) => Some(
                Coordinate {
                    z: ZCoordinate { library: z.0, shelf: z.1, series: z.2 },
                    y: YCoordinate { collection: y.0, volume: y.1, book: y.2 },
                    x: XCoordinate { chapter: x.0, section: x.1, scroll: x.2 },
                },
            ),
            _ => None,
        }
    }
}

/// Reads the values of an arm.
fn read_arm(s: &[char]) -> (r: Option<(usize, usize, usize)>)
    ensures
        r == arm_values(s@),
{
    let parts = split_chars(s, '.');
    let ghost ps = split_on(s@, '.');
    let mut vals: Vec<usize> = Vec::new();
    let mut k: usize = 0;
    while k < parts.len()
        invariant
            0 <= k <= parts@.len(),
            parts@.len() == ps.len(),
            forall|i: int| 0 <= i < parts@.len() ==> (#[trigger] parts@[i])@ == ps[i],
            vals@ == usize_values(ps.take(k as int)),
        decreases parts@.len() - k,
    {
        assert(ps.take(k + 1).drop_last() =~= ps.take(k as int));
        assert(ps.take(k + 1).last() == parts@[k as int]@);
        match parse_usize_chars(parts[k].as_slice()) {
            Some(v) => vals.push(v),
            None => {},
        }
        k = k + 1;
    }
    assert(ps.take(k as int) =~= ps);
    if vals.len() == 3 {
        Some((vals[0], vals[1], vals[2]))
    } else {
        None
    }
}

/// Reads a coordinate from `z/y/x` text such as `1.1.1/2.3.4/5.6.7`.
pub fn parse_coordinate(s: &str) -> (r: Option<Coordinate>)
    ensures
        r == coordinate_from_text(s@),
{
    let cs = chars_vec(s);
    let parts = split_chars(cs.as_slice(), '/');
    if parts.len() != 3 {
        return None;
    }
    let z = read_arm(parts[0].as_slice());
    let y = read_arm(parts[1].as_slice());
    let x = read_arm(parts[2].as_slice());
    match (z, y, x) {
        (Some(z), Some(y), Some(x)) => Some(
            Coordinate {
                z: ZCoordinate { library: z.0, shelf: z.1, series: z.2 },
                y: YCoordinate { collection: y.0, volume: y.1, book: y.2 },
                x: XCoordinate { chapter: x.0, section: x.1, scroll: x.2 },
            },
        ),
        _ => None,
    }
}

/// A navigator just made: at the origin, the scroll dimension active, no
/// marks, and the origin as its only history.
pub open spec fn fresh_nav_view() -> NavigatorView {
    NavigatorView {
        position: base_coordinate(),
        active_dimension: Dimension::Scroll,
        marks: seq![],
        history: seq![base_coordinate()],
        history_cursor: 0,
    }
}

/// Whether the scroll sizes of an index add up within a `usize`.
pub open spec fn index_fits(e: Seq<(Coordinate, ScrollSpan)>) -> bool {
    content_total(e, coords_of(e)) <= usize::MAX
}

/// The position a freshly opened document is shown at: the origin when
/// it holds a scroll, else the first scroll after it (or the origin).
pub open spec fn start_view(m: MappedLattice, v: NavigatorView) -> bool {
    if m.content(base_coordinate()) is Some {
        v == visited(fresh_nav_view(), base_coordinate())
    } else {
        exists|r: Option<Coordinate>|
            {
                &&& is_next_after(coords_of(m.index_view()), base_coordinate(), r)
                &&& r matches Some(c) ==> v == visited(fresh_nav_view(), c)
                &&& r is None ==> v == fresh_nav_view()
            }
    }
}

/// The state of the lifecycle editor's server.
pub struct ServerState {
    /// The open document.
    pub lattice: MappedLattice,
    /// The navigator over it.
    pub nav: Navigator,
    /// Its statistics.
    pub overview: LatticeOverview,
    /// Path of the open file.
    pub file_path: String,
    /// Whether there are unsaved edits.
    pub dirty: bool,
    /// The directory whose phext files may be opened, if restricted.
    pub phext_dir: Option<String>,
    /// The token requests must offer, if any.
    pub auth_token: Option<String>,
}

/// A success flag with a message for the client.
pub struct Outcome {
    pub ok: bool,
    pub message: String,
}

impl ServerState {
    /// The server invariant: a well-formed document whose scrolls can all be
    /// written back, and a well-formed navigator.
    pub open spec fn wf(&self) -> bool {
        &&& self.lattice.wf()
        &&& self.nav.wf()
    }

    /// Rebuilds the statistics from the document, when the scroll sizes add
    /// up within a `usize` (otherwise they stay as they were).
    fn rebuild_overview(&mut self)
        requires
            old(self).wf(),
        ensures
            final(self).wf(),
            index_fits(old(self).lattice.index_view()) ==> describes(
                final(self).overview,
                old(self).lattice.index_view(),
                old(self).lattice.index_len(),
            ),
            !index_fits(old(self).lattice.index_view()) ==> final(self).overview == old(self).overview,
            final(self).lattice == old(self).lattice,
            final(self).nav == old(self).nav,
            final(self).file_path == old(self).file_path,
            final(self).dirty == old(self).dirty,
            final(self).phext_dir == old(self).phext_dir,
            final(self).auth_token == old(self).auth_token,
    {
        if overview_fits(self.lattice.index()) {
            let buf = self.lattice.to_phext_bytes();
            self.overview = LatticeOverview::build(buf.as_slice(), self.lattice.index());
        }
    }

    /// The navigator for a freshly opened document.
    fn start_navigator(lattice: &MappedLattice) -> (r: Navigator)
        requires
            lattice.wf(),
        ensures
            r.wf(),
            start_view(*lattice, r@),
    {
        let mut nav = Navigator::new();
        assert(nav@.marks =~= fresh_nav_view().marks);
        assert(nav@ == fresh_nav_view());
        let base = default_coordinate();
        if lattice.has_scroll(&base) {
            nav.goto(base);
        } else {
            nav.next_populated(lattice.index());
        }
        nav
    }

    /// The state for a document just opened from `file_path`.
    pub fn new(lattice: MappedLattice, file_path: String) -> (r: ServerState)
        requires
            lattice.wf(),
            lattice.overlay_view().len() == 0,
            index_fits(lattice.index_view()),
        ensures
            r.wf(),
            r.lattice == lattice,
            describes(r.overview, lattice.index_view(), lattice.index_len()),
            start_view(lattice, r.nav@),
            r.file_path == file_path,
            !r.dirty,
            r.phext_dir is None,
            r.auth_token is None,
    {
        let nav = Self::start_navigator(&lattice);
        let buf = lattice.to_phext_bytes();
        let overview = LatticeOverview::build(buf.as_slice(), lattice.index());
        ServerState { lattice, nav, overview, file_path, dirty: false, phext_dir: None, auth_token: None }
    }

    /// Switches to a document just opened from `path`, keeping the
    /// directory and token settings.
    pub fn open_lattice(&mut self, lattice: MappedLattice, path: String)
        requires
            lattice.wf(),
            lattice.overlay_view().len() == 0,
            index_fits(lattice.index_view()),
        ensures
            final(self).wf(),
            final(self).lattice == lattice,
            describes(final(self).overview, lattice.index_view(), lattice.index_len()),
            start_view(lattice, final(self).nav@),
            final(self).file_path == path,
            !final(self).dirty,
            final(self).phext_dir == old(self).phext_dir,
            final(self).auth_token == old(self).auth_token,
    {
        self.nav = Self::start_navigator(&lattice);
        let buf = lattice.to_phext_bytes();
        self.overview = LatticeOverview::build(buf.as_slice(), lattice.index());
        self.lattice = lattice;
        self.file_path = path;
        self.dirty = false;
    }

    /// After the document was written to its file and mapped again: the
    /// new mapping, no edits, nothing unsaved.
    pub fn saved(&mut self, mmap: Mmap)
        requires
            old(self).wf(),
        ensures
            final(self).wf(),
            final(self).lattice.buffer() == mapped_bytes(mmap),
            final(self).lattice.overlay_view().len() == 0,
            !final(self).dirty,
            final(self).nav == old(self).nav,
            final(self).overview == old(self).overview,
            final(self).file_path == old(self).file_path,
    {
        self.lattice.replace_mapping(mmap);
        self.dirty = false;
    }

    /// Selects the dimension whose key (1 to 9) the body holds; any other
    /// body changes nothing.
    pub fn select_dimension_text(&mut self, body: &str)
        requires
            old(self).wf(),
        ensures
            final(self).wf(),
            final(self).lattice == old(self).lattice,
            final(self).overview == old(self).overview,
            final(self).dirty == old(self).dirty,
            final(self).nav@ == match parse_usize_chars_spec(trim_end(trim_start(body@))) {
                Some(k) => if 1 <= k <= 9 {
                    NavigatorView { active_dimension: dimension_of_rank(k as int), ..old(self).nav@ }
                } else {
                    old(self).nav@
                },
                None => old(self).nav@,
            },
    {
        let cs = chars_vec(body);
        let (a, b) = trimmed_range(cs.as_slice());
        let t = slice_range_chars(cs.as_slice(), a, b);
        match parse_usize_chars(t) {
            Some(k) => {
                if 1 <= k && k <= 9 {
                    self.nav.select_dimension(k as u8);
                }
            },
            None => {},
        }
    }

    /// Steps forward in the active dimension.
    pub fn forward(&mut self)
        requires
            old(self).wf(),
        ensures
            final(self).wf(),
            final(self).lattice == old(self).lattice,
            final(self).overview == old(self).overview,
            final(self).dirty == old(self).dirty,
            final(self).nav@ == if dim_val(old(self).nav@.position, old(self).nav@.active_dimension)
                < crate::coordinate::COORDINATE_MAXIMUM {
                visited(old(self).nav@, broken(old(self).nav@.position, old(self).nav@.active_dimension))
            } else {
                old(self).nav@
            },
    {
        self.nav.move_forward();
    }

    /// Steps backward in the active dimension.
    pub fn backward(&mut self)
        requires
            old(self).wf(),
        ensures
            final(self).wf(),
            final(self).lattice == old(self).lattice,
            final(self).overview == old(self).overview,
            final(self).dirty == old(self).dirty,
            dim_val(old(self).nav@.position, old(self).nav@.active_dimension) <= 1 ==> final(self).nav@ == old(self).nav@,
            dim_val(old(self).nav@.position, old(self).nav@.active_dimension) > 1 ==> final(self).nav@ == visited(
                old(self).nav@,
                reset_below(
                    with_val(
                        old(self).nav@.position,
                        old(self).nav@.active_dimension,
                        clamp_value((dim_val(old(self).nav@.position, old(self).nav@.active_dimension) - 1) as usize),
                    ),
                    old(self).nav@.active_dimension,
                ),
            ),
    {
        self.nav.move_backward();
    }

    /// Jumps to the next scroll of the document's index.
    pub fn next(&mut self)
        requires
            old(self).wf(),
        ensures
            final(self).wf(),
            final(self).lattice == old(self).lattice,
            final(self).overview == old(self).overview,
            final(self).dirty == old(self).dirty,
            exists|r: Option<Coordinate>|
                {
                    &&& is_next_after(coords_of(old(self).lattice.index_view()), old(self).nav@.position, r)
                    &&& r matches Some(c) ==> final(self).nav@ == visited(old(self).nav@, c)
                    &&& r is None ==> final(self).nav@ == old(self).nav@
                },
    {
        self.nav.next_populated(self.lattice.index());
    }

    /// Jumps to the previous scroll of the document's index.
    pub fn prev(&mut self)
        requires
            old(self).wf(),
        ensures
            final(self).wf(),
            final(self).lattice == old(self).lattice,
            final(self).overview == old(self).overview,
            final(self).dirty == old(self).dirty,
            exists|r: Option<Coordinate>|
                {
                    &&& crate::index::is_prev_before(coords_of(old(self).lattice.index_view()), old(self).nav@.position, r)
                    &&& r matches Some(c) ==> final(self).nav@ == visited(old(self).nav@, c)
                    &&& r is None ==> final(self).nav@ == old(self).nav@
                },
    {
        self.nav.prev_populated(self.lattice.index());
    }

    /// Jumps to the coordinate the body holds; any other body changes
    /// nothing.
    pub fn goto_text(&mut self, body: &str)
        requires
            old(self).wf(),
        ensures
            final(self).wf(),
            final(self).lattice == old(self).lattice,
            final(self).overview == old(self).overview,
            final(self).dirty == old(self).dirty,
            final(self).nav@ == match coordinate_from_text(trim_end(trim_start(body@))) {
                Some(c) => visited(old(self).nav@, c),
                None => old(self).nav@,
            },
    {
        let cs = chars_vec(body);
        let (a, b) = trimmed_range(cs.as_slice());
        let t = string_from_chars(slice_range_chars(cs.as_slice(), a, b));
        match parse_coordinate(t.as_str()) {
            Some(c) => self.nav.goto(c),
            None => {},
        }
    }

    /// Jumps to the origin.
    pub fn base(&mut self)
        requires
            old(self).wf(),
        ensures
            final(self).wf(),
            final(self).lattice == old(self).lattice,
            final(self).overview == old(self).overview,
            final(self).dirty == old(self).dirty,
            final(self).nav@ == visited(old(self).nav@, base_coordinate()),
    {
        self.nav.goto(default_coordinate());
    }

    /// Jumps to the same artifact in the phase (collection) the body
    /// holds; any other body changes nothing.
    pub fn phase_text(&mut self, body: &str)
        requires
            old(self).wf(),
        ensures
            final(self).wf(),
            final(self).lattice == old(self).lattice,
            final(self).overview == old(self).overview,
            final(self).dirty == old(self).dirty,
            final(self).nav@ == match parse_usize_chars_spec(trim_end(trim_start(body@))) {
                Some(v) => visited(
                    old(self).nav@,
                    Coordinate { y: YCoordinate { collection: v, ..old(self).nav@.position.y }, ..old(self).nav@.position },
                ),
                None => old(self).nav@,
            },
    {
        let cs = chars_vec(body);
        let (a, b) = trimmed_range(cs.as_slice());
        let t = slice_range_chars(cs.as_slice(), a, b);
        match parse_usize_chars(t) {
            Some(v) => {
                let pos = self.nav.position();
                let mut target = pos;
                target.y.collection = v;
                self.nav.goto(target);
            },
            None => {},
        }
    }

    /// Writes `content` to the scroll the coordinate text names; `false`,
    /// changing nothing, when the text names no coordinate.
    pub fn update(&mut self, coordinate: &str, content: &str) -> (ok: bool)
        requires
            old(self).wf(),
        ensures
            final(self).wf(),
            ok == coordinate_from_text(coordinate@) is Some,
            final(self).nav == old(self).nav,
            final(self).lattice.index_view() == old(self).lattice.index_view(),
            final(self).lattice.index_len() == old(self).lattice.index_len(),
            ok && index_fits(old(self).lattice.index_view()) ==> describes(
                final(self).overview,
                old(self).lattice.index_view(),
                old(self).lattice.index_len(),
            ),
            !(ok && index_fits(old(self).lattice.index_view())) ==> final(self).overview == old(self).overview,
            final(self).file_path == old(self).file_path,
            ok ==> final(self).dirty,
            !ok ==> final(self).dirty == old(self).dirty && final(self).lattice == old(self).lattice,
            forall|c: Coordinate| #[trigger] final(self).lattice.content(c) == match coordinate_from_text(coordinate@) {
                Some(t) => if c == t {
                    Some(content@)
                } else {
                    old(self).lattice.content(c)
                },
                None => old(self).lattice.content(c),
            },
    {
        match parse_coordinate(coordinate) {
            Some(c) => {
                self.lattice.write_scroll(c, content.to_owned());
                self.dirty = true;
                self.rebuild_overview();
                true
            },
            None => false,
        }
    }

    /// The figures of the status panel.
    pub fn status_info(&self) -> (r: StatusInfo)
        requires
            self.wf(),
        ensures
            r.scrolls == self.overview.total_scrolls,
            r.bytes == self.lattice.phext_bytes_spec().len(),
            r.file@ == self.file_path@,
            r.dirty == self.dirty,
    {
        let buf = self.lattice.to_phext_bytes();
        StatusInfo { scrolls: self.overview.total_scrolls, bytes: buf.len(), file: self.file_path.clone(), dirty: self.dirty }
    }

    /// Every scroll's coordinate, in document order.
    pub fn tree_info(&self) -> (r: TreeInfo)
        requires
            self.wf(),
        ensures
            r.total_scrolls == r.coordinates@.len(),
            exists|s: Seq<Coordinate>|
                {
                    &&& crate::coordinate::strictly_sorted(s)
                    &&& forall|c: Coordinate| s.contains(c) <==> (self.lattice.content(c) is Some)
                    &&& s.len() == r.coordinates@.len()
                    &&& forall|i: int| 0 <= i < s.len() ==> encode_utf8(#[trigger] r.coordinates@[i]@) == coordinate_text(s[i])
                },
    {
        let coords = self.lattice.populated_coordinates();
        let mut out: Vec<String> = Vec::new();
        let mut i: usize = 0;
        while i < coords.len()
            invariant
                0 <= i <= coords@.len(),
                out@.len() == i,
                forall|k: int| 0 <= k < i ==> encode_utf8(#[trigger] out@[k]@) == coordinate_text(coords@[k]),
            decreases coords@.len() - i,
        {
            out.push(coords[i].display());
            i = i + 1;
        }
        TreeInfo { total_scrolls: out.len(), coordinates: out }
    }

    /// The current position, for the coordinate bar.
    pub fn position_info(&self) -> (r: PositionInfo)
        requires
            self.wf(),
        ensures
            encode_utf8(r.coordinate@) == coordinate_text(self.nav@.position),
            r.dimension@ == dimension_name(self.nav@.active_dimension),
            r.dimension_index == rank(self.nav@.active_dimension),
            r.has_scroll == (self.lattice.content(self.nav@.position) is Some),
            r.total_scrolls == self.overview.total_scrolls,
    {
        let pos = self.nav.position();
        let dim = self.nav.active_dimension();
        PositionInfo {
            coordinate: pos.display(),
            dimension: dim.name().to_owned(),
            dimension_index: dim.index(),
            has_scroll: self.lattice.has_scroll(&pos),
            total_scrolls: self.overview.total_scrolls,
        }
    }

    /// The content of the scroll at `coord` (empty when there is none).
    pub fn scroll_info(&self, coord: Coordinate) -> (r: ScrollInfo)
        requires
            self.wf(),
        ensures
            encode_utf8(r.coordinate@) == coordinate_text(coord),
            r.content@ == match self.lattice.content(coord) {
                Some(t) => t,
                None => Seq::<char>::empty(),
            },
            r.bytes == encode_utf8(r.content@).len(),
    {
        let content = match self.lattice.read_scroll(&coord) {
            Some(s) => s,
            None => String::new(),
        };
        let bytes = content.as_str().as_bytes().len();
        ScrollInfo { coordinate: coord.display(), content, bytes }
    }
}

/// What `serde_json` reads from `body` for member `key`: `None` when the
/// body is not JSON, else the member's text when it is a string.
pub uninterp spec fn json_member(body: Seq<char>, key: Seq<char>) -> Option<Option<Seq<char>>>;

/// Reads member `key` of the JSON text `body` with `serde_json::from_str`
/// into a `Value`, `Value::get` and `Value::as_str`. Claimed: the result is
/// the named reading of the two texts.
#[verifier::external_body]
fn json_string_member(body: &str, key: &str) -> (r: Option<Option<String>>)
    ensures
        json_member(body@, key@) == match r {
            None => None,
            Some(None) => Some(None),
            Some(Some(t)) => Some(Some(t@)),
        },
{
    serde_json::from_str::<serde_json::Value>(body).ok().map(|v| v.get(key).and_then(|m| m.as_str()).map(|m| m.to_owned()))
}


/// What an update request with the `coordinate` and `content` members
/// `members` (each `None` when missing or not a string) leads to: the
/// scroll written, or why not.
pub open spec fn update_outcome(members: (Option<Seq<char>>, Option<Seq<char>>)) -> (bool, Seq<char>) {
    let coord = match members.0 {
        Some(t) => t,
        None => Seq::<char>::empty(),
    };
    match coordinate_from_text(coord) {
        Some(_) => (true, "scroll updated"@),
        None => (false, "invalid coordinate"@),
    }
}

impl ServerState {
    /// Applies an update request whose JSON members are `members`: a
    /// missing member reads as empty text; a text that names no coordinate
    /// is refused.
    pub fn update_members(&mut self, members: (Option<String>, Option<String>)) -> (r: Outcome)
        requires
            old(self).wf(),
        ensures
            final(self).wf(),
            ({
                let mv = (
                    match members.0 { Some(t) => Some(t@), None => None },
                    match members.1 { Some(t) => Some(t@), None => None },
                );
                let text = match members.1 { Some(t) => t@, None => Seq::<char>::empty() };
                let target = coordinate_from_text(match members.0 { Some(t) => t@, None => Seq::<char>::empty() });
                &&& (r.ok, r.message@) == update_outcome(mv)
                &&& r.ok ==> final(self).dirty && forall|c: Coordinate| #[trigger] final(self).lattice.content(c) == if Some(c) == target {
                    Some(text)
                } else {
                    old(self).lattice.content(c)
                }
                &&& !r.ok ==> final(self).lattice == old(self).lattice && final(self).dirty == old(self).dirty
            }),
            final(self).nav == old(self).nav,
            final(self).lattice.index_view() == old(self).lattice.index_view(),
            final(self).lattice.index_len() == old(self).lattice.index_len(),
            r.ok && index_fits(old(self).lattice.index_view()) ==> describes(
                final(self).overview,
                old(self).lattice.index_view(),
                old(self).lattice.index_len(),
            ),
            !(r.ok && index_fits(old(self).lattice.index_view())) ==> final(self).overview == old(self).overview,
    {
        let coord = match &members.0 {
            Some(t) => t.clone(),
            None => String::new(),
        };
        let content = match &members.1 {
            Some(t) => t.clone(),
            None => String::new(),
        };
        match parse_coordinate(coord.as_str()) {
            Some(_) => {
                let ok = self.update(coord.as_str(), content.as_str());
                Outcome { ok, message: "scroll updated".to_owned() }
            },
            None => Outcome { ok: false, message: "invalid coordinate".to_owned() },
        }
    }

    /// Handles the body of an update request: JSON with a `coordinate`
    /// and a `content` member.
    pub fn update_from_body(&mut self, body: &str) -> (r: Outcome)
        requires
            old(self).wf(),
        ensures
            final(self).wf(),
            final(self).nav == old(self).nav,
            final(self).lattice.index_view() == old(self).lattice.index_view(),
            final(self).lattice.index_len() == old(self).lattice.index_len(),
            r.ok && index_fits(old(self).lattice.index_view()) ==> describes(
                final(self).overview,
                old(self).lattice.index_view(),
                old(self).lattice.index_len(),
            ),
            !(r.ok && index_fits(old(self).lattice.index_view())) ==> final(self).overview == old(self).overview,
            json_member(body@, "coordinate"@) is None ==> !r.ok && r.message@ == "invalid json"@
                && final(self).lattice == old(self).lattice,
            json_member(body@, "coordinate"@) is Some && json_member(body@, "content"@) is None ==> !r.ok
                && r.message@ == "invalid json"@ && final(self).lattice == old(self).lattice,
            json_member(body@, "coordinate"@) matches Some(c) ==> json_member(body@, "content"@) matches Some(t)
                ==> {
                &&& (r.ok, r.message@) == update_outcome((c, t))
                &&& r.ok ==> final(self).dirty && forall|x: Coordinate| #[trigger] final(self).lattice.content(x)
                    == if Some(x) == coordinate_from_text(text_or_empty(c)) {
                    Some(text_or_empty(t))
                } else {
                    old(self).lattice.content(x)
                }
                &&& !r.ok ==> final(self).lattice == old(self).lattice && final(self).dirty == old(self).dirty
            },
    {
        match json_string_member(body, "coordinate") {
            None => Outcome { ok: false, message: "invalid json".to_owned() },
            Some(c) => match json_string_member(body, "content") {
                None => Outcome { ok: false, message: "invalid json".to_owned() },
                Some(t) => self.update_members((c, t)),
            },
        }
    }
}

/// A member's text, or empty text when it is missing or not a string.
pub open spec fn text_or_empty(m: Option<Seq<char>>) -> Seq<char> {
    match m {
        Some(t) => t,
        None => Seq::<char>::empty(),
    }
}

/// An arm written `a.b.c`.
pub open spec fn arm_label(k: (usize, usize, usize)) -> Seq<char> {
    dec_chars(k.0 as nat) + seq!['.'] + dec_chars(k.1 as nat) + seq!['.'] + dec_chars(k.2 as nat)
}

/// The arm a zoom tier groups by: Z (0), Y (1) or X (2).
pub open spec fn tier_key(t: int, c: Coordinate) -> (usize, usize, usize) {
    if t == 0 {
        (c.z.library, c.z.shelf, c.z.series)
    } else if t == 1 {
        (c.y.collection, c.y.volume, c.y.book)
    } else {
        (c.x.chapter, c.x.section, c.x.scroll)
    }
}

/// Whether a zoom tier shows `c`: every scroll for Z, those under the Z arm
/// `zv` for Y, those under `zv` and the Y arm `yv` for X.
pub open spec fn in_tier(t: int, zv: ZCoordinate, yv: YCoordinate, c: Coordinate) -> bool {
    t == 0 || (t == 1 && c.z == zv) || (t == 2 && c.z == zv && c.y == yv)
}

/// The runs of equal arms among the coordinates a tier shows, in list
/// order: each arm with how many scrolls it holds and its first scroll.
pub open spec fn tier_runs(t: int, zv: ZCoordinate, yv: YCoordinate, s: Seq<Coordinate>) -> Seq<
    ((usize, usize, usize), nat, Coordinate),
>
    decreases s.len(),
{
    if s.len() == 0 {
        seq![]
    } else {
        let r = tier_runs(t, zv, yv, s.drop_last());
        let c = s.last();
        if !in_tier(t, zv, yv, c) {
            r
        } else if r.len() > 0 && r.last().0 == tier_key(t, c) {
            r.update(r.len() - 1, (r.last().0, r.last().1 + 1, r.last().2))
        } else {
            r.push((tier_key(t, c), 1nat, c))
        }
    }
}

/// The first 80 characters of a text.
pub open spec fn preview_of(t: Seq<char>) -> Seq<char> {
    if t.len() <= 80 {
        t
    } else {
        t.take(80)
    }
}

/// One entry of a zoom tier, with its texts as character sequences.
pub struct ZoomEntryView {
    pub label: Seq<char>,
    pub coordinate: Seq<char>,
    pub scroll_count: nat,
    pub preview: Seq<char>,
}

/// A coordinate written `z/y/x`.
pub open spec fn coordinate_chars(c: Coordinate) -> Seq<char> {
    arm_label(tier_key(0, c)) + seq!['/'] + arm_label(tier_key(1, c)) + seq!['/'] + arm_label(tier_key(2, c))
}

/// The entry for a run: its arm as label, the coordinate it leads to (for
/// Z the arm at the origin of the rest, for Y under the Z text `zs`, for X
/// the scroll itself), its size and the start of its first scroll.
pub open spec fn run_entry(m: MappedLattice, t: int, zs: Seq<char>, run: ((usize, usize, usize), nat, Coordinate)) -> ZoomEntryView {
    let label = arm_label(run.0);
    ZoomEntryView {
        label,
        coordinate: if t == 0 {
            label + "/1.1.1/1.1.1"@
        } else if t == 1 {
            zs + seq!['/'] + label + "/1.1.1"@
        } else {
            coordinate_chars(run.2)
        },
        scroll_count: run.1,
        preview: match m.content(run.2) {
            Some(text) => preview_of(text),
            None => Seq::<char>::empty(),
        },
    }
}

/// One entry of a zoom tier.
pub struct ZoomEntry {
    pub label: String,
    pub coordinate: String,
    pub scroll_count: usize,
    pub preview: String,
}

impl View for ZoomEntry {
    type V = ZoomEntryView;

    open spec fn view(&self) -> ZoomEntryView {
        ZoomEntryView {
            label: self.label@,
            coordinate: self.coordinate@,
            scroll_count: self.scroll_count as nat,
            preview: self.preview@,
        }
    }
}

/// The views of a list of entries.
pub open spec fn entry_views(v: Seq<ZoomEntry>) -> Seq<ZoomEntryView> {
    v.map_values(|e: ZoomEntry| e@)
}

/// Whether entries are in label order (string order, ties kept).
pub open spec fn label_sorted(v: Seq<ZoomEntryView>) -> bool {
    forall|i: int, j: int| 0 <= i < j < v.len() ==> !text_lt(#[trigger] v[j].label, #[trigger] v[i].label)
}

/// Whether `v` holds the entries `expected` sorted by label.
pub open spec fn sorted_entries_of(v: Seq<ZoomEntryView>, expected: Seq<ZoomEntryView>) -> bool {
    &&& label_sorted(v)
    &&& v.to_multiset() == expected.to_multiset()
}

/// A zoom tier: its name, the arms it lies under, and its entries.
pub struct ZoomInfo {
    pub tier: String,
    pub parent: String,
    pub entries: Vec<ZoomEntry>,
}

/// Appends `a.b.c`.
fn push_arm(v: &mut Vec<char>, k: (usize, usize, usize))
    ensures
        final(v)@ == old(v)@ + arm_label(k),
{
    let ghost start = v@;
    push_dec_chars(v, k.0);
    v.push('.');
    push_dec_chars(v, k.1);
    v.push('.');
    push_dec_chars(v, k.2);
    assert(v@ =~= start + arm_label(k));
}

/// The arm of `c` that tier `t` groups by.
fn key_of(t: u8, c: &Coordinate) -> (r: (usize, usize, usize))
    ensures
        r == tier_key(t as int, *c),
{
    if t == 0 {
        (c.z.library, c.z.shelf, c.z.series)
    } else if t == 1 {
        (c.y.collection, c.y.volume, c.y.book)
    } else {
        (c.x.chapter, c.x.section, c.x.scroll)
    }
}

/// Inserts `e` after the entries whose labels do not come after its own.
fn insert_by_label(v: &mut Vec<ZoomEntry>, e: ZoomEntry)
    requires
        label_sorted(entry_views(old(v)@)),
    ensures
        label_sorted(entry_views(final(v)@)),
        entry_views(final(v)@).to_multiset() == entry_views(old(v)@).to_multiset().insert(e@),
{
    let ghost s = entry_views(v@);
    let ghost ev = e@;
    let el = chars_vec(e.label.as_str());
    let mut p: usize = 0;
    while p < v.len()
        invariant
            0 <= p <= v@.len(),
            s == entry_views(v@),
            el@ == ev.label,
            e@ == ev,
            forall|i: int| 0 <= i < p ==> !text_lt(ev.label, #[trigger] s[i].label),
        ensures
            0 <= p <= v@.len(),
            forall|i: int| 0 <= i < p ==> !text_lt(ev.label, #[trigger] s[i].label),
            p < v@.len() ==> text_lt(ev.label, s[p as int].label),
        decreases v@.len() - p,
    {
        let pl = chars_vec(v[p].label.as_str());
        assert(s[p as int] == v@[p as int]@);
        if chars_before(el.as_slice(), pl.as_slice()) {
            break;
        }
        p = p + 1;
    }
    v.insert(p, e);
    proof {
        let ns = entry_views(v@);
        assert(ns =~= s.insert(p as int, ev));
        vstd::seq_lib::to_multiset_insert(s, p as int, ev);
        assert forall|i: int, j: int| 0 <= i < j < ns.len() implies !text_lt(#[trigger] ns[j].label, #[trigger] ns[i].label) by {
            if i < p && j < p {
                assert(ns[i] == s[i] && ns[j] == s[j]);
            } else if i < p && j == p {
                assert(ns[i] == s[i]);
            } else if i < p {
                assert(ns[i] == s[i] && ns[j] == s[j - 1]);
            } else if i == p {
                assert(ns[j] == s[j - 1]);
                if text_lt(s[j - 1].label, ev.label) {
                    if j - 1 == p {
                        crate::tts::lemma_text_lt_trans(s[p as int].label, ev.label, s[p as int].label);
                        lemma_text_lt_irreflexive(s[p as int].label);
                    } else {
                        crate::tts::lemma_text_lt_trans(s[j - 1].label, ev.label, s[p as int].label);
                    }
                }
            } else {
                assert(ns[i] == s[i - 1] && ns[j] == s[j - 1]);
            }
        }
    }
}

/// No text comes before itself.
proof fn lemma_text_lt_irreflexive(a: Seq<char>)
    ensures
        !text_lt(a, a),
    decreases a.len(),
{
    if a.len() > 0 {
        lemma_text_lt_irreflexive(a.drop_first());
    }
}

impl ServerState {
    /// The runs of the scrolls tier `t` shows, in document order.
    fn runs(&self, t: u8, zv: ZCoordinate, yv: YCoordinate, coords: &Vec<Coordinate>) -> (r: Vec<((usize, usize, usize), usize, Coordinate)>)
        requires
            self.wf(),
        ensures
            r@.len() == tier_runs(t as int, zv, yv, coords@).len(),
            forall|i: int|
                0 <= i < r@.len() ==> (#[trigger] r@[i]).0 == tier_runs(t as int, zv, yv, coords@)[i].0 && r@[i].1
                    == tier_runs(t as int, zv, yv, coords@)[i].1 && r@[i].2 == tier_runs(t as int, zv, yv, coords@)[i].2,
    {
        let mut out: Vec<((usize, usize, usize), usize, Coordinate)> = Vec::new();
        let n = coords.len();
        let mut k: usize = 0;
        while k < n
            invariant
                0 <= k <= n,
                n == coords@.len(),
                out@.len() == tier_runs(t as int, zv, yv, coords@.take(k as int)).len(),
                forall|i: int|
                    0 <= i < out@.len() ==> (#[trigger] out@[i]).0 == tier_runs(t as int, zv, yv, coords@.take(k as int))[i].0
                        && out@[i].1 == tier_runs(t as int, zv, yv, coords@.take(k as int))[i].1 && out@[i].2
                        == tier_runs(t as int, zv, yv, coords@.take(k as int))[i].2,
                forall|i: int| 0 <= i < out@.len() ==> (#[trigger] out@[i]).1 <= k,
            decreases n - k,
        {
            let c = coords[k];
            let ghost prev = tier_runs(t as int, zv, yv, coords@.take(k as int));
            assert(coords@.take(k + 1).drop_last() =~= coords@.take(k as int));
            assert(coords@.take(k + 1).last() == c);
            let shown = t == 0 || (t == 1 && c.z == zv) || (t == 2 && c.z == zv && c.y == yv);
            if shown {
                let key = key_of(t, &c);
                let m = out.len();
                if m > 0 && out[m - 1].0.0 == key.0 && out[m - 1].0.1 == key.1 && out[m - 1].0.2 == key.2 {
                    let last = out[m - 1];
                    out.set(m - 1, (last.0, last.1 + 1, last.2));
                } else {
                    out.push((key, 1, c));
                }
            }
            k = k + 1;
        }
        assert(coords@.take(n as int) =~= coords@);
        out
    }

    /// The entry for one run.
    fn entry_for(&self, t: u8, zs: &[char], run: ((usize, usize, usize), usize, Coordinate)) -> (r: ZoomEntry)
        requires
            self.wf(),
        ensures
            r@ == run_entry(self.lattice, t as int, zs@, (run.0, run.1 as nat, run.2)),
    {
        let mut label: Vec<char> = Vec::new();
        push_arm(&mut label, run.0);
        assert(label@ =~= arm_label(run.0));
        let ghost want = run_entry(self.lattice, t as int, zs@, (run.0, run.1 as nat, run.2));
        let mut coordinate: Vec<char> = Vec::new();
        if t == 0 {
            push_arm(&mut coordinate, run.0);
            push_chars(&mut coordinate, "/1.1.1/1.1.1");
            assert(coordinate@ =~= want.coordinate);
        } else if t == 1 {
            let mut k: usize = 0;
            while k < zs.len()
                invariant
                    0 <= k <= zs@.len(),
                    coordinate@ == zs@.take(k as int),
                decreases zs@.len() - k,
            {
                coordinate.push(zs[k]);
                assert(zs@.take(k + 1) =~= zs@.take(k as int).push(zs@[k as int]));
                k = k + 1;
            }
            assert(zs@.take(k as int) =~= zs@);
            coordinate.push('/');
            push_arm(&mut coordinate, run.0);
            push_chars(&mut coordinate, "/1.1.1");
            assert(coordinate@ =~= want.coordinate);
        } else {
            let c = run.2;
            push_arm(&mut coordinate, (c.z.library, c.z.shelf, c.z.series));
            coordinate.push('/');
            push_arm(&mut coordinate, (c.y.collection, c.y.volume, c.y.book));
            coordinate.push('/');
            push_arm(&mut coordinate, (c.x.chapter, c.x.section, c.x.scroll));
            assert(coordinate@ =~= want.coordinate);
        }
        let preview = match self.lattice.read_scroll(&run.2) {
            Some(text) => {
                let cs = chars_vec(text.as_str());
                let n = if cs.len() <= 80 {
                    cs.len()
                } else {
                    80
                };
                let head = slice_range_chars(cs.as_slice(), 0, n);
                assert(head@ =~= preview_of(text@));
                string_from_chars(head)
            },
            None => String::new(),
        };
        assert(preview@ == want.preview);
        let label_s = string_from_chars(label.as_slice());
        let coordinate_s = string_from_chars(coordinate.as_slice());
        ZoomEntry { label: label_s, coordinate: coordinate_s, scroll_count: run.1, preview }
    }

    /// The entries of tier `t`, sorted by label.
    fn tier_entries(&self, t: u8, zs: &[char], zv: ZCoordinate, yv: YCoordinate) -> (r: Vec<ZoomEntry>)
        requires
            self.wf(),
        ensures
            exists|s: Seq<Coordinate>|
                {
                    &&& crate::coordinate::strictly_sorted(s)
                    &&& forall|c: Coordinate| s.contains(c) <==> (self.lattice.content(c) is Some)
                    &&& sorted_entries_of(
                        entry_views(r@),
                        tier_runs(t as int, zv, yv, s).map_values(
                            |run: ((usize, usize, usize), nat, Coordinate)| run_entry(self.lattice, t as int, zs@, run),
                        ),
                    )
                },
    {
        let coords = self.lattice.populated_coordinates();
        let runs = self.runs(t, zv, yv, &coords);
        let ghost expected = tier_runs(t as int, zv, yv, coords@).map_values(
            |run: ((usize, usize, usize), nat, Coordinate)| run_entry(self.lattice, t as int, zs@, run),
        );
        let mut out: Vec<ZoomEntry> = Vec::new();
        let mut i: usize = 0;
        assert(entry_views(out@).to_multiset() =~= expected.take(0).to_multiset()) by {
            assert(entry_views(out@) =~= Seq::<ZoomEntryView>::empty());
            assert(expected.take(0) =~= Seq::<ZoomEntryView>::empty());
        }
        while i < runs.len()
            invariant
                0 <= i <= runs@.len(),
                runs@.len() == expected.len(),
                forall|j: int|
                    0 <= j < runs@.len() ==> run_entry(self.lattice, t as int, zs@, ((#[trigger] runs@[j]).0, runs@[j].1 as nat, runs@[j].2))
                        == expected[j],
                label_sorted(entry_views(out@)),
                entry_views(out@).to_multiset() == expected.take(i as int).to_multiset(),
                self.wf(),
            decreases runs@.len() - i,
        {
            let e = self.entry_for(t, zs, runs[i]);
            assert(expected.take(i + 1) =~= expected.take(i as int).push(expected[i as int]));
            proof {
                vstd::seq_lib::to_multiset_build(expected.take(i as int), expected[i as int]);
            }
            insert_by_label(&mut out, e);
            i = i + 1;
        }
        assert(expected.take(i as int) =~= expected);
        out
    }

    /// The Z arms that hold scrolls.
    pub fn zoom_z(&self) -> (r: ZoomInfo)
        requires
            self.wf(),
        ensures
            r.tier@ == "z"@,
            r.parent@ == ""@,
            exists|s: Seq<Coordinate>|
                {
                    &&& crate::coordinate::strictly_sorted(s)
                    &&& forall|c: Coordinate| s.contains(c) <==> (self.lattice.content(c) is Some)
                    &&& sorted_entries_of(
                        entry_views(r.entries@),
                        tier_runs(0, ZCoordinate { library: 1, shelf: 1, series: 1 }, YCoordinate { collection: 1, volume: 1, book: 1 }, s).map_values(
                            |run: ((usize, usize, usize), nat, Coordinate)| run_entry(self.lattice, 0, Seq::<char>::empty(), run),
                        ),
                    )
                },
    {
        let none: Vec<char> = Vec::new();
        let entries = self.tier_entries(0, none.as_slice(), ZCoordinate::new(), YCoordinate::new());
        ZoomInfo { tier: "z".to_owned(), parent: "".to_owned(), entries }
    }

    /// The Y arms under the Z arm written `z_str`; no entries when it is
    /// not an arm.
    pub fn zoom_y(&self, z_str: &str) -> (r: ZoomInfo)
        requires
            self.wf(),
        ensures
            r.tier@ == "y"@,
            r.parent@ == z_str@,
            arm_values(z_str@) is None ==> r.entries@.len() == 0,
            arm_values(z_str@) matches Some(z) ==> exists|s: Seq<Coordinate>|
                {
                    &&& crate::coordinate::strictly_sorted(s)
                    &&& forall|c: Coordinate| s.contains(c) <==> (self.lattice.content(c) is Some)
                    &&& sorted_entries_of(
                        entry_views(r.entries@),
                        tier_runs(1, ZCoordinate { library: z.0, shelf: z.1, series: z.2 }, YCoordinate { collection: 1, volume: 1, book: 1 }, s).map_values(
                            |run: ((usize, usize, usize), nat, Coordinate)| run_entry(self.lattice, 1, z_str@, run),
                        ),
                    )
                },
    {
        let zc = chars_vec(z_str);
        match read_arm(zc.as_slice()) {
            None => ZoomInfo { tier: "y".to_owned(), parent: z_str.to_owned(), entries: Vec::new() },
            Some(z) => {
                let zv = ZCoordinate { library: z.0, shelf: z.1, series: z.2 };
                let entries = self.tier_entries(1, zc.as_slice(), zv, YCoordinate::new());
                ZoomInfo { tier: "y".to_owned(), parent: z_str.to_owned(), entries }
            },
        }
    }

    /// The scrolls under the Z arm `z_str` and the Y arm `y_str`; no
    /// entries when either is not an arm.
    pub fn zoom_x(&self, z_str: &str, y_str: &str) -> (r: ZoomInfo)
        requires
            self.wf(),
        ensures
            r.tier@ == "x"@,
            r.parent@ == z_str@ + seq!['/'] + y_str@,
            (arm_values(z_str@) is None || arm_values(y_str@) is None) ==> r.entries@.len() == 0,
            arm_values(z_str@) matches Some(z) ==> arm_values(y_str@) matches Some(y) ==> exists|s: Seq<Coordinate>|
                {
                    &&& crate::coordinate::strictly_sorted(s)
                    &&& forall|c: Coordinate| s.contains(c) <==> (self.lattice.content(c) is Some)
                    &&& sorted_entries_of(
                        entry_views(r.entries@),
                        tier_runs(2, ZCoordinate { library: z.0, shelf: z.1, series: z.2 }, YCoordinate { collection: y.0, volume: y.1, book: y.2 }, s).map_values(
                            |run: ((usize, usize, usize), nat, Coordinate)| run_entry(self.lattice, 2, z_str@, run),
                        ),
                    )
                },
    {
        let zc = chars_vec(z_str);
        let yc = chars_vec(y_str);
        let mut parent: Vec<char> = zc.clone();
        parent.push('/');
        let mut k: usize = 0;
        let ghost start = parent@;
        while k < yc.len()
            invariant
                0 <= k <= yc@.len(),
                parent@ == start + yc@.take(k as int),
            decreases yc@.len() - k,
        {
            parent.push(yc[k]);
            assert(yc@.take(k + 1) =~= yc@.take(k as int).push(yc@[k as int]));
            k = k + 1;
        }
        assert(yc@.take(k as int) =~= yc@);
        assert(parent@ =~= z_str@ + seq!['/'] + y_str@);
        let parent_s = string_from_chars(parent.as_slice());
        match (read_arm(zc.as_slice()), read_arm(yc.as_slice())) {
            (Some(z), Some(y)) => {
                let zv = ZCoordinate { library: z.0, shelf: z.1, series: z.2 };
                let yv = YCoordinate { collection: y.0, volume: y.1, book: y.2 };
                let entries = self.tier_entries(2, zc.as_slice(), zv, yv);
                ZoomInfo { tier: "x".to_owned(), parent: parent_s, entries }
            },
            _ => ZoomInfo { tier: "x".to_owned(), parent: parent_s, entries: Vec::new() },
        }
    }
}

/// One axon row of the sentron panel.
pub struct AxonInfo {
    pub dimension: u8,
    pub name: String,
    pub group: String,
    pub value: usize,
    pub backward: usize,
    pub forward: usize,
}

/// The sentron panel.
pub struct SentronInfo {
    pub center: String,
    pub size: usize,
    pub structural_reach: usize,
    pub sequential_reach: usize,
    pub axons: Vec<AxonInfo>,
}

/// Whether a row shows axon `a` of the coordinate `pos` in group `group`.
pub open spec fn axon_row(r: AxonInfo, a: Axon, pos: Coordinate, group: Seq<char>) -> bool {
    &&& r.dimension == rank(a.dimension)
    &&& r.name@ == dimension_name(a.dimension)
    &&& r.group@ == group
    &&& r.value == dim_val(pos, a.dimension)
    &&& r.backward == a.backward_count
    &&& r.forward == a.forward_count
}

/// One phase of the artifact trace.
pub struct TraceInfo {
    pub phase: String,
    pub phase_short: String,
    pub color: String,
    pub collection: usize,
    pub populated: bool,
    pub coordinate: String,
}

/// The lifecycle panel: the phase of the position, its artifact, and the
/// artifact's trace through every phase.
pub struct UmlInfo {
    pub phase: String,
    pub phase_short: String,
    pub phase_color: String,
    pub artifact_addr: String,
    pub trace: Vec<TraceInfo>,
}

/// One row of the dimension panel.
pub struct DensityInfo {
    pub dimension: u8,
    pub name: String,
    pub extent: usize,
    pub populated: usize,
}

/// Copies the text of a static string.
fn owned(s: &str) -> (r: String)
    ensures
        r@ == s@,
{
    s.to_owned()
}

impl ServerState {
    /// The row of one axon.
    fn axon_info(a: &Axon, pos: &Coordinate, group: &str) -> (r: AxonInfo)
        ensures
            axon_row(r, *a, *pos, group@),
    {
        AxonInfo {
            dimension: a.dimension.index(),
            name: owned(a.dimension.name()),
            group: owned(group),
            value: pos.get_dim(a.dimension),
            backward: a.backward_count,
            forward: a.forward_count,
        }
    }

    /// The sentron around the position; `None` when a distance from it, or
    /// four times the number of scrolls, does not fit in a `usize`.
    pub fn sentron_info(&self) -> (r: Option<SentronInfo>)
        requires
            self.wf(),
        ensures
            ({
                let pos = self.nav@.position;
                let cs = coords_of(self.lattice.index_view());
                let axons = axons_spec(pos, cs);
                &&& r is None <==> !(distances_fit(pos, cs) && 4 * cs.len() <= usize::MAX)
                &&& r matches Some(info) ==> {
                    &&& encode_utf8(info.center@) == coordinate_text(pos)
                    &&& info.size == nearest_coordinates(pos, cs).len()
                    &&& info.structural_reach == reach(axons, 0, 4)
                    &&& info.sequential_reach == reach(axons, 4, 8)
                    &&& info.axons@.len() == 9
                    &&& forall|k: int| 0 <= k < 4 ==> axon_row(#[trigger] info.axons@[k], axons[k], pos, "spatial"@)
                    &&& forall|k: int| 4 <= k < 8 ==> axon_row(#[trigger] info.axons@[k], axons[k], pos, "temporal"@)
                    &&& info.axons@[8].dimension == 9
                    &&& info.axons@[8].name@ == "Scroll"@
                    &&& info.axons@[8].group@ == "neuron"@
                    &&& info.axons@[8].value == pos.x.scroll
                    &&& info.axons@[8].backward == 0
                    &&& info.axons@[8].forward == 0
                }
            }),
    {
        let pos = self.nav.position();
        let index = self.lattice.index();
        if !sentron_fits(&pos, index) {
            return None;
        }
        let sentron = Sentron::build(&pos, index);
        let mut axons: Vec<AxonInfo> = Vec::new();
        let structural = sentron.structural_axons();
        let sequential = sentron.sequential_axons();
        let mut k: usize = 0;
        while k < 4
            invariant
                0 <= k <= 4,
                structural@ == sentron.axons@.subrange(0, 4),
                axons@.len() == k,
                forall|j: int| 0 <= j < k ==> axon_row(#[trigger] axons@[j], sentron.axons@[j], pos, "spatial"@),
            decreases 4 - k,
        {
            axons.push(Self::axon_info(&structural[k], &pos, "spatial"));
            k = k + 1;
        }
        while k < 8
            invariant
                4 <= k <= 8,
                sequential@ == sentron.axons@.subrange(4, 8),
                axons@.len() == k,
                forall|j: int| 0 <= j < 4 ==> axon_row(#[trigger] axons@[j], sentron.axons@[j], pos, "spatial"@),
                forall|j: int| 4 <= j < k ==> axon_row(#[trigger] axons@[j], sentron.axons@[j], pos, "temporal"@),
            decreases 8 - k,
        {
            axons.push(Self::axon_info(&sequential[k - 4], &pos, "temporal"));
            k = k + 1;
        }
        axons.push(AxonInfo {
            dimension: 9,
            name: owned("Scroll"),
            group: owned("neuron"),
            value: pos.get_dim(Dimension::Scroll),
            backward: 0,
            forward: 0,
        });
        Some(SentronInfo {
            center: sentron.center.display(),
            size: sentron.size(),
            structural_reach: sentron.structural_reach,
            sequential_reach: sentron.sequential_reach,
            axons,
        })
    }

    /// The lifecycle panel for the position: its phase (`???` and grey for
    /// a collection that is no phase), its artifact, and for every phase
    /// whether the artifact has a scroll there, under the same outer arm.
    pub fn uml_info(&self) -> (r: UmlInfo)
        requires
            self.wf(),
        ensures
            ({
                let pos = self.nav@.position;
                let addr = addr_of(pos);
                &&& r.phase@ == match phase_of(pos.y.collection) {
                    Some(p) => phase_name(p),
                    None => "Phase "@ + dec_chars(pos.y.collection as nat),
                }
                &&& r.phase_short@ == match phase_of(pos.y.collection) {
                    Some(p) => phase_short(p),
                    None => "???"@,
                }
                &&& r.phase_color@ == match phase_of(pos.y.collection) {
                    Some(p) => phase_color(p),
                    None => "#808080"@,
                }
                &&& r.artifact_addr@ == addr_text(addr)
                &&& r.trace@.len() == 9
                &&& forall|i: int| 0 <= i < 9 ==> {
                    let p = all_phases()[i];
                    let c = artifact_coordinate(addr, p, pos.z.library, pos.z.shelf, pos.z.series);
                    &&& (#[trigger] r.trace@[i]).phase@ == phase_name(p)
                    &&& r.trace@[i].phase_short@ == phase_short(p)
                    &&& r.trace@[i].color@ == phase_color(p)
                    &&& r.trace@[i].collection == collection_of(p)
                    &&& r.trace@[i].populated == (self.lattice.content(c) is Some)
                    &&& encode_utf8(r.trace@[i].coordinate@) == coordinate_text(c)
                }
            }),
    {
        let pos = self.nav.position();
        let ctx = UmlContext::from_coordinate(&pos);
        let phases = Phase::all();
        let mut trace: Vec<TraceInfo> = Vec::new();
        let mut i: usize = 0;
        while i < 9
            invariant
                0 <= i <= 9,
                phases@ == all_phases(),
                ctx.artifact == addr_of(pos),
                pos == self.nav@.position,
                self.wf(),
                trace@.len() == i,
                forall|j: int| 0 <= j < i ==> {
                    let p = all_phases()[j];
                    let c = artifact_coordinate(addr_of(pos), p, pos.z.library, pos.z.shelf, pos.z.series);
                    &&& (#[trigger] trace@[j]).phase@ == phase_name(p)
                    &&& trace@[j].phase_short@ == phase_short(p)
                    &&& trace@[j].color@ == phase_color(p)
                    &&& trace@[j].collection == collection_of(p)
                    &&& trace@[j].populated == (self.lattice.content(c) is Some)
                    &&& encode_utf8(trace@[j].coordinate@) == coordinate_text(c)
                },
            decreases 9 - i,
        {
            let phase = phases[i];
            let coord = ctx.artifact.to_coordinate_with_outer(phase, pos.z.library, pos.z.shelf, pos.z.series);
            trace.push(TraceInfo {
                phase: owned(phase.name()),
                phase_short: owned(phase.short()),
                color: owned(phase.color()),
                collection: phase.collection(),
                populated: self.lattice.has_scroll(&coord),
                coordinate: coord.display(),
            });
            i = i + 1;
        }
        let (short, color) = match ctx.phase {
            Some(p) => (owned(p.short()), owned(p.color())),
            None => (owned("???"), owned("#808080")),
        };
        UmlInfo {
            phase: ctx.phase_name.clone(),
            phase_short: short,
            phase_color: color,
            artifact_addr: ctx.artifact_label.clone(),
            trace,
        }
    }

    /// The dimension panel: for every dimension, how many values it takes
    /// among the document's indexed scrolls and how many scrolls there are.
    pub fn densities(&self) -> (r: Vec<(DensityInfo, DimensionDensity)>)
        requires
            self.wf(),
        ensures
            r@.len() == 9,
            forall|k: int| 0 <= k < 9 ==> {
                let (row, dd) = #[trigger] r@[k];
                &&& row.dimension == k + 1
                &&& row.name@ == dimension_name(dimension_of_rank(k + 1))
                &&& dd.dimension == dimension_of_rank(k + 1)
                &&& is_distribution(dd.distribution@, coords_of(self.lattice.index_view()), dd.dimension)
                &&& dd.total == distinct_count(coords_of(self.lattice.index_view()))
                &&& row.extent == dd.distribution@.len()
                &&& row.populated == dd.total
            },
    {
        let mut out: Vec<(DensityInfo, DimensionDensity)> = Vec::new();
        let mut i: u8 = 1;
        while i <= 9
            invariant
                1 <= i <= 10,
                out@.len() == i - 1,
                self.wf(),
                forall|k: int| 0 <= k < i - 1 ==> {
                    let (row, dd) = #[trigger] out@[k];
                    &&& row.dimension == k + 1
                    &&& row.name@ == dimension_name(dimension_of_rank(k + 1))
                    &&& dd.dimension == dimension_of_rank(k + 1)
                    &&& is_distribution(dd.distribution@, coords_of(self.lattice.index_view()), dd.dimension)
                    &&& dd.total == distinct_count(coords_of(self.lattice.index_view()))
                    &&& row.extent == dd.distribution@.len()
                    &&& row.populated == dd.total
                },
            decreases 10 - i,
        {
            let dim = match Dimension::from_index(i) {
                Some(d) => d,
                None => Dimension::Scroll,
            };
            let dd = DimensionDensity::build(dim, self.lattice.index());
            let row = DensityInfo { dimension: i, name: owned(dim.name()), extent: dd.distribution.len(), populated: dd.total };
            out.push((row, dd));
            i = i + 1;
        }
        out
    }
}

/// Size and state of the open file.
pub struct StatusInfo {
    pub scrolls: usize,
    pub bytes: usize,
    pub file: String,
    pub dirty: bool,
}

/// Every scroll's coordinate.
pub struct TreeInfo {
    pub total_scrolls: usize,
    pub coordinates: Vec<String>,
}

/// The current position.
pub struct PositionInfo {
    pub coordinate: String,
    pub dimension: String,
    pub dimension_index: u8,
    pub has_scroll: bool,
    pub total_scrolls: usize,
}

/// One scroll's content.
pub struct ScrollInfo {
    pub coordinate: String,
    pub content: String,
    pub bytes: usize,
}

} // verus!
