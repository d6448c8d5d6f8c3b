use std::collections::HashMap;

use phext_lattice::coordinate::{XCoordinate, YCoordinate, ZCoordinate};
use phext_lattice::{default_coordinate, Coordinate, CoordinateNav, Dimension, LatticeIndex, Navigator};

fn coord(s: &str) -> Coordinate {
    let v: Vec<usize> = s.split(|c| c == '.' || c == '/').map(|p| p.parse().unwrap()).collect();
    Coordinate {
        z: ZCoordinate { library: v[0], shelf: v[1], series: v[2] },
        y: YCoordinate { collection: v[3], volume: v[4], book: v[5] },
        x: XCoordinate { chapter: v[6], section: v[7], scroll: v[8] },
    }
}

fn make_test_phext() -> Vec<u8> {
    let mut buf = Vec::new();
    buf.extend_from_slice(b"hello");
    buf.push(0x17);
    buf.extend_from_slice(b"world");
    buf.push(0x18);
    buf.extend_from_slice(b"deep");
    buf
}

#[test]
fn coordinate_is_hashable() {
    let mut map: HashMap<Coordinate, usize> = HashMap::new();
    let c = coord("2.7.1/8.2.8/4.5.9");
    map.insert(c, 42);
    assert_eq!(map.get(&c), Some(&42));
}

#[test]
fn navigate_forward_and_back() {
    let mut c = coord("1.1.1/1.1.1/1.1.3");
    assert!(c.navigate_forward(Dimension::Scroll));
    assert_eq!(c.x.scroll, 4);
    assert!(c.navigate_backward(Dimension::Scroll));
    assert_eq!(c.x.scroll, 3);
}

#[test]
fn navigate_backward_resets_lower() {
    let mut c = coord("1.1.1/1.1.1/3.5.7");
    c.navigate_backward(Dimension::Chapter);
    assert_eq!(c.x.chapter, 2);
    assert_eq!(c.x.section, 1);
    assert_eq!(c.x.scroll, 1);
}

#[test]
fn navigate_at_minimum_returns_false() {
    let mut c = coord("1.1.1/1.1.1/1.1.1");
    assert!(!c.navigate_backward(Dimension::Library));
}

#[test]
fn dimension_from_index() {
    assert_eq!(Dimension::from_index(1), Some(Dimension::Scroll));
    assert_eq!(Dimension::from_index(9), Some(Dimension::Library));
    assert_eq!(Dimension::from_index(0), None);
    assert_eq!(Dimension::from_index(10), None);
}

#[test]
fn with_dimension_resets_lower() {
    let c = coord("3.3.3/5.5.5/7.7.7");
    let moved = c.with_dimension(Dimension::Volume, 2);
    assert_eq!(moved.y.volume, 2);
    assert_eq!(moved.y.book, 1);
    assert_eq!(moved.x.chapter, 1);
    assert_eq!(moved.y.collection, 5);
    assert_eq!(moved.z.series, 3);
}

#[test]
fn dimension_index_name_and_delimiter() {
    for i in 1..=9u8 {
        let d = Dimension::from_index(i).unwrap();
        assert_eq!(d.index(), i);
    }
    assert_eq!(Dimension::Scroll.delimiter(), 0x17);
    assert_eq!(Dimension::Library.delimiter(), 0x01);
    assert_eq!(Dimension::Book.name(), "Book");
}

#[test]
fn set_dimension_and_value() {
    let mut c = coord("1.2.3/4.5.6/7.8.9");
    assert_eq!(c.dimension_value(Dimension::Collection), 4);
    c.set_dimension(Dimension::Collection, 8);
    assert_eq!(c, coord("1.2.3/8.5.6/7.8.9"));
    c.set_dimension(Dimension::Scroll, 5000);
    assert_eq!(c.x.scroll, 1000);
    c.set_dimension(Dimension::Scroll, 0);
    assert_eq!(c.x.scroll, 1);
}

#[test]
fn navigate_forward_at_maximum_returns_false() {
    let mut c = coord("1.1.1/1.1.1/1.1.1");
    c.set_dimension(Dimension::Scroll, 1000);
    assert!(!c.navigate_forward(Dimension::Scroll));
    assert_eq!(c.x.scroll, 1000);
}

#[test]
fn coordinate_display_and_order() {
    let c = coord("3.1.4/1.5.9/2.6.5");
    assert_eq!(c.display(), "3.1.4/1.5.9/2.6.5");
    assert!(coord("1.1.1/1.1.1/1.1.2").precedes(&coord("1.1.1/1.1.1/1.2.1")));
    assert!(!coord("1.1.2/1.1.1/1.1.1").precedes(&coord("1.1.1/9.9.9/9.9.9")));
    let mut b = default_coordinate();
    b.book_break();
    assert_eq!(b, coord("1.1.1/1.1.2/1.1.1"));
}

#[test]
fn build_and_lookup() {
    let phext = make_test_phext();
    let index = LatticeIndex::build(&phext);
    assert_eq!(index.scroll_count(), 3);
    let span = index.get(&coord("1.1.1/1.1.1/1.1.1")).unwrap();
    assert_eq!(&phext[span.start..span.end], b"hello");
    let span2 = index.get(&coord("1.1.1/1.1.1/1.1.2")).unwrap();
    assert_eq!(&phext[span2.start..span2.end], b"world");
    let span3 = index.get(&coord("1.1.1/1.1.1/1.2.1")).unwrap();
    assert_eq!(&phext[span3.start..span3.end], b"deep");
}

#[test]
fn next_prev_populated() {
    let phext = make_test_phext();
    let index = LatticeIndex::build(&phext);
    let base = coord("1.1.1/1.1.1/1.1.1");
    let next = index.next_populated(&base).unwrap();
    assert_eq!(next, coord("1.1.1/1.1.1/1.1.2"));
    let prev = index.prev_populated(&next).unwrap();
    assert_eq!(prev, base);
}

#[test]
fn empty_coordinate_returns_none() {
    let phext = make_test_phext();
    let index = LatticeIndex::build(&phext);
    assert!(index.get(&coord("5.5.5/5.5.5/5.5.5")).is_none());
}

#[test]
fn document_order_preserved() {
    let phext = make_test_phext();
    let index = LatticeIndex::build(&phext);
    let coords = index.coordinates();
    assert_eq!(coords.len(), 3);
    assert!(coords[0] < coords[1]);
    assert!(coords[1] < coords[2]);
}

#[test]
fn index_empty_scrolls_are_skipped() {
    let buf = vec![b'a', 0x17, 0x17, b'b', 0x01];
    let index = LatticeIndex::build(&buf);
    assert_eq!(index.scroll_count(), 2);
    assert!(index.contains(&coord("1.1.1/1.1.1/1.1.3")));
    assert!(!index.contains(&coord("1.1.1/1.1.1/1.1.2")));
    assert_eq!(index.buffer_len(), 5);
    assert_eq!(index.dimension_extent(Dimension::Scroll), vec![1, 3]);
    let matching = index.coordinates_matching(|c| c.x.scroll > 1);
    assert_eq!(matching, vec![coord("1.1.1/1.1.1/1.1.3")]);
}

#[test]
fn basic_navigation() {
    let mut nav = Navigator::new();
    assert_eq!(nav.position(), default_coordinate());
    nav.select_dimension(4);
    assert_eq!(nav.active_dimension(), Dimension::Book);
    assert!(nav.move_forward());
    assert_eq!(nav.position().y.book, 2);
    assert_eq!(nav.position().x.chapter, 1);
}

#[test]
fn goto_and_history() {
    let mut nav = Navigator::new();
    let target = coord("3.3.3/5.5.5/7.7.7");
    nav.goto(target);
    assert_eq!(nav.position(), target);
    assert!(nav.history_back());
    assert_eq!(nav.position(), default_coordinate());
    assert!(nav.history_forward());
    assert_eq!(nav.position(), target);
}

#[test]
fn marks() {
    let mut nav = Navigator::new();
    let pos1 = coord("2.2.2/2.2.2/2.2.2");
    nav.goto(pos1);
    nav.set_mark();
    let pos2 = coord("5.5.5/5.5.5/5.5.5");
    nav.goto(pos2);
    assert!(nav.jump_to_mark());
    assert_eq!(nav.position(), pos1);
}

#[test]
fn populated_navigation() {
    let mut buf = Vec::new();
    buf.extend_from_slice(b"first");
    buf.push(0x17);
    buf.extend_from_slice(b"second");
    buf.push(0x18);
    buf.extend_from_slice(b"third");
    let index = LatticeIndex::build(&buf);
    let mut nav = Navigator::new();
    assert!(nav.next_populated(&index));
    assert_eq!(nav.position(), coord("1.1.1/1.1.1/1.1.2"));
    assert!(nav.next_populated(&index));
    assert_eq!(nav.position(), coord("1.1.1/1.1.1/1.2.1"));
    assert!(!nav.next_populated(&index));
    assert!(nav.prev_populated(&index));
    assert_eq!(nav.position(), coord("1.1.1/1.1.1/1.1.2"));
}

#[test]
fn navigator_edges() {
    let mut nav = Navigator::new();
    assert!(!nav.select_dimension(0));
    assert!(!nav.select_dimension(10));
    assert!(!nav.move_backward());
    assert!(!nav.history_back());
    assert!(!nav.history_forward());
    assert!(!nav.jump_to_mark());
    assert_eq!(nav.dimension_neighbors(), (None, 1, Some(2)));
    let index = LatticeIndex::build(b"only");
    let summary = nav.summarize(&index);
    assert_eq!(summary.total_scrolls, 1);
    assert!(summary.has_content);
    assert_eq!(summary.next, None);
    assert_eq!(summary.dimension_name, "Scroll");
}

#[test]
fn history_back_then_goto_truncates_forward() {
    let mut nav = Navigator::new();
    let a = coord("2.1.1/1.1.1/1.1.1");
    let b = coord("3.1.1/1.1.1/1.1.1");
    let c = coord("4.1.1/1.1.1/1.1.1");
    nav.goto(a);
    nav.goto(b);
    assert!(nav.history_back());
    nav.goto(c);
    assert!(!nav.history_forward());
    assert!(nav.history_back());
    assert_eq!(nav.position(), a);
}

#[test]
fn history_back_then_forward_restores() {
    let mut nav = Navigator::new();
    nav.goto(coord("2.2.2/1.1.1/1.1.1"));
    nav.goto(coord("3.3.3/1.1.1/1.1.1"));
    assert!(nav.history_back());
    assert_eq!(nav.position(), coord("2.2.2/1.1.1/1.1.1"));
    assert!(nav.history_forward());
    assert_eq!(nav.position(), coord("3.3.3/1.1.1/1.1.1"));
    assert!(!nav.history_forward());
}

#[test]
fn mark_then_jump_returns() {
    let mut nav = Navigator::new();
    nav.goto(coord("4.4.4/1.1.1/1.1.1"));
    nav.set_mark();
    nav.goto(coord("5.5.5/1.1.1/1.1.1"));
    assert!(nav.jump_to_mark());
    assert_eq!(nav.position(), coord("4.4.4/1.1.1/1.1.1"));
    assert!(!nav.jump_to_mark());
}

#[test]
fn next_then_prev_returns() {
    let index = LatticeIndex::build(&make_test_phext());
    let start = coord("1.1.1/1.1.1/1.1.1");
    let next = index.next_populated(&start).unwrap();
    assert_eq!(index.prev_populated(&next), Some(start));
}

#[test]
fn displayed_coordinates_parse_back() {
    for s in ["1.1.1/1.1.1/1.1.1", "12.3.456/7.89.1/999.1.23"] {
        let c = coord(s);
        assert_eq!(c.display(), s);
        assert_eq!(phext_lattice::server::parse_coordinate(&c.display()), Some(c));
        let spoken = phext_lattice::CoordPronunciation::parse(&c.display()).unwrap().pronounce();
        assert_eq!(spoken, phext_lattice::CoordPronunciation::from_coordinate(&c).pronounce());
    }
}
