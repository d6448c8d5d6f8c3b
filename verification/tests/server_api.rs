use std::path::PathBuf;

use memmap2::{Mmap, MmapMut};
use phext_lattice::coordinate::{XCoordinate, YCoordinate, ZCoordinate};
use phext_lattice::server::{
    authorized, parse_coordinate, route, serves, Flavor, Route, ServerState,
};
use phext_lattice::{Coordinate, MappedLattice};

fn coord(s: &str) -> Coordinate {
    let v: Vec<usize> = s.split(|c| c == '.' || c == '/').map(|p| p.parse().unwrap()).collect();
    Coordinate {
        z: ZCoordinate { library: v[0], shelf: v[1], series: v[2] },
        y: YCoordinate { collection: v[3], volume: v[4], book: v[5] },
        x: XCoordinate { chapter: v[6], section: v[7], scroll: v[8] },
    }
}

fn mapping(bytes: &[u8]) -> Mmap {
    let mut m = MmapMut::map_anon(bytes.len().max(1)).unwrap();
    m[..bytes.len()].copy_from_slice(bytes);
    m.make_read_only().unwrap()
}

fn lattice_of(bytes: &[u8]) -> MappedLattice {
    MappedLattice::from_mapping(mapping(bytes), PathBuf::new(), None)
}

fn sample() -> Vec<u8> {
    let mut buf = Vec::new();
    buf.extend_from_slice(b"scroll one");
    buf.push(0x17);
    buf.extend_from_slice(b"scroll two");
    buf.push(0x18);
    buf.extend_from_slice(b"section two");
    buf
}

fn state() -> ServerState {
    ServerState::new(lattice_of(&sample()), "doc.phext".to_string())
}

#[test]
fn routes_name_requests() {
    assert_eq!(route("GET", "/"), Route::Page);
    assert_eq!(route("GET", "/index.html"), Route::Page);
    assert_eq!(route("OPTIONS", "/api/anything"), Route::Preflight);
    assert_eq!(route("GET", "/api/nav"), Route::Nav);
    assert_eq!(route("POST", "/api/update"), Route::Update);
    assert_eq!(route("GET", "/api/update"), Route::NotFound);
    assert_eq!(route("POST", "/api/tree"), Route::NotFound);
    assert_eq!(route("GET", "/api/zoom/z"), Route::ZoomZ);
    assert_eq!(route("GET", "/api/zoom/y/1.1.1"), Route::ZoomY("1.1.1".to_string()));
    assert_eq!(
        route("GET", "/api/zoom/x/1.1.1/2.2.2"),
        Route::ZoomX("1.1.1".to_string(), "2.2.2".to_string())
    );
    assert_eq!(route("GET", "/api/zoom/x/1.1.1"), Route::ZoomXMalformed);
    assert_eq!(
        route("GET", "/api/scroll/1.1.1/1.1.1/1.1.2"),
        Route::Scroll("1.1.1/1.1.1/1.1.2".to_string())
    );
    assert_eq!(route("DELETE", "/api/nav"), Route::NotFound);
}

#[test]
fn authorization_rules() {
    assert!(authorized("/api/nav", None, ""));
    assert!(authorized("/", Some("s3cret"), ""));
    assert!(authorized("/index.html", Some("s3cret"), "wrong"));
    assert!(authorized("/api/nav", Some("s3cret"), "Bearer s3cret"));
    assert!(authorized("/api/nav", Some("s3cret"), "bEaReR   s3cret  "));
    assert!(authorized("/api/nav", Some("s3cret"), "s3cret"));
    assert!(!authorized("/api/nav", Some("s3cret"), "Bearer wrong"));
    assert!(!authorized("/api/nav", Some("s3cret"), ""));
}

#[test]
fn coordinates_read_from_text() {
    assert_eq!(parse_coordinate("1.2.3/4.5.6/7.8.9"), Some(coord("1.2.3/4.5.6/7.8.9")));
    assert_eq!(parse_coordinate("1.x.2.3/4.5.6/7.8.9"), Some(coord("1.2.3/4.5.6/7.8.9")));
    assert_eq!(parse_coordinate("1.2.3/4.5.6"), None);
    assert_eq!(parse_coordinate("1.2/4.5.6/7.8.9"), None);
    assert_eq!(parse_coordinate(""), None);
}

#[test]
fn fresh_state_starts_at_origin() {
    let s = state();
    let p = s.position_info();
    assert_eq!(p.coordinate, "1.1.1/1.1.1/1.1.1");
    assert!(p.has_scroll);
    assert_eq!(p.total_scrolls, 3);
    let st = s.status_info();
    assert_eq!(st.scrolls, 3);
    assert_eq!(st.bytes, sample().len());
    assert_eq!(st.file, "doc.phext");
    assert!(!st.dirty);
    let t = s.tree_info();
    assert_eq!(t.total_scrolls, 3);
    assert_eq!(t.coordinates, vec!["1.1.1/1.1.1/1.1.1", "1.1.1/1.1.1/1.1.2", "1.1.1/1.1.1/1.2.1"]);
}

#[test]
fn state_starts_at_first_scroll_without_origin() {
    let mut buf = vec![0x17u8];
    buf.extend_from_slice(b"second");
    let s = ServerState::new(lattice_of(&buf), "x.phext".to_string());
    assert_eq!(s.position_info().coordinate, "1.1.1/1.1.1/1.1.2");
}

#[test]
fn navigation_requests() {
    let mut s = state();
    s.next();
    assert_eq!(s.position_info().coordinate, "1.1.1/1.1.1/1.1.2");
    s.prev();
    assert_eq!(s.position_info().coordinate, "1.1.1/1.1.1/1.1.1");
    s.select_dimension_text(" 2\n");
    let p = s.position_info();
    assert_eq!(p.dimension, "Section");
    assert_eq!(p.dimension_index, 2);
    s.forward();
    assert_eq!(s.position_info().coordinate, "1.1.1/1.1.1/1.2.1");
    s.backward();
    assert_eq!(s.position_info().coordinate, "1.1.1/1.1.1/1.1.1");
    s.select_dimension_text("10");
    assert_eq!(s.position_info().dimension_index, 2);
    s.goto_text("  3.3.3/4.4.4/5.5.5 ");
    assert_eq!(s.position_info().coordinate, "3.3.3/4.4.4/5.5.5");
    assert!(!s.position_info().has_scroll);
    s.goto_text("not a coordinate");
    assert_eq!(s.position_info().coordinate, "3.3.3/4.4.4/5.5.5");
    s.phase_text("7");
    assert_eq!(s.position_info().coordinate, "3.3.3/7.4.4/5.5.5");
    s.base();
    assert_eq!(s.position_info().coordinate, "1.1.1/1.1.1/1.1.1");
}

#[test]
fn update_requests() {
    let mut s = state();
    let r = s.update_from_body(r#"{"coordinate":"1.1.1/1.1.1/1.1.3","content":"new text"}"#);
    assert!(r.ok);
    assert_eq!(r.message, "scroll updated");
    assert!(s.dirty);
    let info = s.scroll_info(coord("1.1.1/1.1.1/1.1.3"));
    assert_eq!(info.content, "new text");
    assert_eq!(info.bytes, 8);
    assert_eq!(info.coordinate, "1.1.1/1.1.1/1.1.3");
    assert_eq!(s.status_info().scrolls, 3);
    assert!(s.status_info().dirty);

    let mut s = state();
    let r = s.update_from_body("not json");
    assert!(!r.ok);
    assert_eq!(r.message, "invalid json");
    assert!(!s.dirty);

    let r = s.update_from_body(r#"{"coordinate":"bad","content":"x"}"#);
    assert!(!r.ok);
    assert_eq!(r.message, "invalid coordinate");

    let r = s.update_from_body(r#"{"coordinate":7,"content":"x"}"#);
    assert!(!r.ok);
    assert_eq!(r.message, "invalid coordinate");

    let r = s.update_from_body(r#"{"coordinate":"1.1.1/1.1.1/1.1.1000","content":"x"}"#);
    assert!(r.ok);
    assert_eq!(r.message, "scroll updated");
    assert!(s.dirty);
    assert_eq!(s.scroll_info(coord("1.1.1/1.1.1/1.1.1000")).content, "x");

    let r = s.update_from_body(r#"{"coordinate":"1.1.1/1.1.1/1.1.2"}"#);
    assert!(r.ok);
    assert_eq!(s.scroll_info(coord("1.1.1/1.1.1/1.1.2")).content, "");
}

#[test]
fn update_with_plain_coordinate_text() {
    let mut s = state();
    assert!(s.update("1.1.1/1.1.1/1.1.1", "changed"));
    assert_eq!(s.scroll_info(coord("1.1.1/1.1.1/1.1.1")).content, "changed");
    assert!(!s.update("nope", "changed"));
}

#[test]
fn zoom_tiers() {
    let mut buf = sample();
    buf.push(0x1f);
    buf.extend_from_slice(b"far away");
    let s = ServerState::new(lattice_of(&buf), "z.phext".to_string());

    let z = s.zoom_z();
    assert_eq!(z.tier, "z");
    assert_eq!(z.parent, "");
    assert_eq!(z.entries.len(), 2);
    assert_eq!(z.entries[0].label, "1.1.1");
    assert_eq!(z.entries[0].coordinate, "1.1.1/1.1.1/1.1.1");
    assert_eq!(z.entries[0].scroll_count, 3);
    assert_eq!(z.entries[0].preview, "scroll one");
    assert_eq!(z.entries[1].label, "1.2.1");
    assert_eq!(z.entries[1].scroll_count, 1);
    assert_eq!(z.entries[1].preview, "far away");

    let y = s.zoom_y("1.1.1");
    assert_eq!(y.tier, "y");
    assert_eq!(y.parent, "1.1.1");
    assert_eq!(y.entries.len(), 1);
    assert_eq!(y.entries[0].label, "1.1.1");
    assert_eq!(y.entries[0].coordinate, "1.1.1/1.1.1/1.1.1");
    assert_eq!(y.entries[0].scroll_count, 3);

    let x = s.zoom_x("1.1.1", "1.1.1");
    assert_eq!(x.tier, "x");
    assert_eq!(x.parent, "1.1.1/1.1.1");
    let labels: Vec<&str> = x.entries.iter().map(|e| e.label.as_str()).collect();
    assert_eq!(labels, vec!["1.1.1", "1.1.2", "1.2.1"]);
    assert_eq!(x.entries[2].coordinate, "1.1.1/1.1.1/1.2.1");
    assert_eq!(x.entries[2].preview, "section two");
    assert!(x.entries.iter().all(|e| e.scroll_count == 1));

    assert!(s.zoom_y("bad").entries.is_empty());
    assert_eq!(s.zoom_y("bad").parent, "bad");
    assert!(s.zoom_x("1.1.1", "1.1").entries.is_empty());
}

#[test]
fn zoom_labels_sort_as_text() {
    let mut buf = b"a".to_vec();
    buf.push(0x1f);
    buf.extend_from_slice(b"b");
    for _ in 0..8 {
        buf.push(0x1f);
    }
    buf.extend_from_slice(b"c");
    let s = ServerState::new(lattice_of(&buf), "z.phext".to_string());
    let labels: Vec<String> = s.zoom_z().entries.into_iter().map(|e| e.label).collect();
    assert_eq!(labels, vec!["1.1.1".to_string(), "1.10.1".to_string(), "1.2.1".to_string()]);
}

#[test]
fn panels_describe_the_position() {
    let s = state();
    let sen = s.sentron_info().unwrap();
    assert_eq!(sen.center, "1.1.1/1.1.1/1.1.1");
    assert_eq!(sen.axons.len(), 9);
    assert_eq!(sen.axons[0].group, "spatial");
    assert_eq!(sen.axons[4].group, "temporal");
    assert_eq!(sen.axons[8].group, "neuron");
    assert_eq!(sen.axons[8].name, "Scroll");
    assert_eq!(sen.axons[8].value, 1);

    let uml = s.uml_info();
    assert_eq!(uml.phase, "Meta");
    assert_eq!(uml.phase_short, "META");
    assert_eq!(uml.phase_color, "#808080");
    assert_eq!(uml.artifact_addr, "1.1.1/1.1");
    assert_eq!(uml.trace.len(), 9);
    assert_eq!(uml.trace[0].collection, 1);
    assert!(uml.trace[0].populated);
    assert!(!uml.trace[1].populated);
    assert_eq!(uml.trace[1].coordinate, "1.1.1/2.1.1/1.1.1");
    assert_eq!(uml.trace[1].phase, "Requirements");

    let d = s.densities();
    assert_eq!(d.len(), 9);
    assert_eq!(d[0].0.dimension, 1);
    assert_eq!(d[0].0.name, "Scroll");
    assert_eq!(d[0].0.extent, 2);
    assert_eq!(d[0].0.populated, 3);
    assert_eq!(d[1].0.extent, 2);
    assert_eq!(d[8].0.extent, 1);
}

#[test]
fn unknown_phase_is_grey() {
    let mut s = state();
    s.goto_text("1.1.1/12.1.1/1.1.1");
    let uml = s.uml_info();
    assert_eq!(uml.phase_short, "???");
    assert_eq!(uml.phase_color, "#808080");
    assert_eq!(uml.phase, "Phase 12");
}

#[test]
fn opening_another_document_resets() {
    let mut s = state();
    s.auth_token = Some("t".to_string());
    assert!(s.update("1.1.1/1.1.1/1.1.1", "edit"));
    let mut buf = vec![0x17u8];
    buf.extend_from_slice(b"other");
    s.open_lattice(lattice_of(&buf), "other.phext".to_string());
    assert!(!s.dirty);
    assert_eq!(s.file_path, "other.phext");
    assert_eq!(s.auth_token.as_deref(), Some("t"));
    assert_eq!(s.position_info().coordinate, "1.1.1/1.1.1/1.1.2");
    assert_eq!(s.status_info().scrolls, 1);
}

#[test]
fn saving_replaces_the_mapping() {
    let mut s = state();
    assert!(s.update("1.1.1/1.1.1/1.1.1", "edited"));
    let bytes = s.lattice.to_phext_bytes();
    s.saved(mapping(&bytes));
    assert!(!s.dirty);
    assert_eq!(s.lattice.pending_changes(), 0);
    assert_eq!(s.scroll_info(coord("1.1.1/1.1.1/1.1.1")).content, "edited");
}

#[test]
fn plain_editor_answers_fewer_routes() {
    assert!(serves(Flavor::Plain, &Route::Nav));
    assert!(serves(Flavor::Plain, &Route::Scroll("1.1.1/1.1.1/1.1.1".to_string())));
    assert!(!serves(Flavor::Plain, &Route::Update));
    assert!(!serves(Flavor::Plain, &Route::ZoomZ));
    assert!(serves(Flavor::Lifecycle, &Route::Update));
    assert!(serves(Flavor::Lifecycle, &Route::NotFound));
}
