use phext_lattice::coordinate::{XCoordinate, YCoordinate, ZCoordinate};
use phext_lattice::search::{build_index_parallel, merge_hits, search_scroll, use_parallel};
use phext_lattice::sentron::coord_distance;
use phext_lattice::{
    search_coordinates, search_lattice, Coordinate, Dimension, DimensionDensity, LatticeIndex,
    LatticeOverview, Neighborhood, ScrollStats, SearchHit, Sentron, SENTRON_CAPACITY,
};

fn coord(s: &str) -> Coordinate {
    let v: Vec<usize> = s.split(|c| c == '.' || c == '/').map(|p| p.parse().unwrap()).collect();
    Coordinate {
        z: ZCoordinate { library: v[0], shelf: v[1], series: v[2] },
        y: YCoordinate { collection: v[3], volume: v[4], book: v[5] },
        x: XCoordinate { chapter: v[6], section: v[7], scroll: v[8] },
    }
}

fn search_phext() -> Vec<u8> {
    let mut buf = Vec::new();
    buf.extend_from_slice(b"Hello World from BASE");
    buf.push(0x17);
    buf.extend_from_slice(b"This is scroll two with hello again");
    buf.push(0x18);
    buf.extend_from_slice(b"Section two has different content");
    buf
}

fn sentron_phext() -> Vec<u8> {
    let mut buf = Vec::new();
    buf.extend_from_slice(b"base scroll");
    buf.push(0x17);
    buf.extend_from_slice(b"second scroll");
    buf.push(0x18);
    buf.extend_from_slice(b"third scroll");
    buf.push(0x19);
    buf.extend_from_slice(b"chapter two");
    buf.push(0x1A);
    buf.extend_from_slice(b"book two");
    buf
}

fn stats_phext() -> Vec<u8> {
    let mut buf = Vec::new();
    buf.extend_from_slice(b"Hello World from BASE");
    buf.push(0x17);
    buf.extend_from_slice(b"Short");
    buf.push(0x18);
    buf.extend_from_slice(b"This is a longer scroll with more words in it for testing");
    buf
}

#[test]
fn search_search_finds_matches() {
    let phext = search_phext();
    let index = LatticeIndex::build(&phext);
    let hits = search_lattice(&phext, &index, "hello", false, 100);
    assert_eq!(hits.len(), 2);
    assert_eq!(hits[0].coordinate, coord("1.1.1/1.1.1/1.1.1"));
    assert_eq!(hits[1].coordinate, coord("1.1.1/1.1.1/1.1.2"));
}

#[test]
fn search_search_case_sensitive() {
    let phext = search_phext();
    let index = LatticeIndex::build(&phext);
    let hits = search_lattice(&phext, &index, "Hello", true, 100);
    assert_eq!(hits.len(), 1);
    assert_eq!(hits[0].coordinate, coord("1.1.1/1.1.1/1.1.1"));
}

#[test]
fn search_search_respects_max_results() {
    let phext = search_phext();
    let index = LatticeIndex::build(&phext);
    let hits = search_lattice(&phext, &index, "hello", false, 1);
    assert_eq!(hits.len(), 1);
}

#[test]
fn search_search_coordinates_partial() {
    let phext = search_phext();
    let index = LatticeIndex::build(&phext);
    let matches = search_coordinates(&index, "1.1.1");
    assert_eq!(matches.len(), 3);
}

#[test]
fn search_hit_offsets_and_context() {
    let phext = search_phext();
    let index = LatticeIndex::build(&phext);
    let hits = search_lattice(&phext, &index, "hello", false, 100);
    assert_eq!(hits[0].offset, 0);
    assert_eq!(hits[0].length, 5);
    assert_eq!(hits[0].context, "Hello World from BASE");
    assert_eq!(hits[1].offset, 24);
    assert_eq!(hits[1].context, "This is scroll two with hello again");
    assert!(search_lattice(&phext, &index, "hello", false, 0).is_empty());
    assert!(search_lattice(&phext, &index, "absent", false, 10).is_empty());
}

#[test]
fn search_context_is_clipped_with_ellipses() {
    let mut text = "x".repeat(50);
    text.push_str("needle");
    text.push_str(&"y".repeat(50));
    let buf = text.into_bytes();
    let index = LatticeIndex::build(&buf);
    let hits = search_lattice(&buf, &index, "needle", true, 10);
    assert_eq!(hits.len(), 1);
    assert_eq!(hits[0].offset, 50);
    let expected = format!("…{}needle{}…", "x".repeat(41), "y".repeat(40));
    assert_eq!(hits[0].context, expected);
}

#[test]
fn search_coordinates_trims_pattern() {
    let phext = search_phext();
    let index = LatticeIndex::build(&phext);
    assert_eq!(search_coordinates(&index, "  1.1.2 ").len(), 1);
    assert_eq!(search_coordinates(&index, "1.2.1").len(), 1);
    assert!(search_coordinates(&index, "7.7").is_empty());
}

#[test]
fn parallel_helpers() {
    assert!(!use_parallel(1000, 100, false));
    assert!(use_parallel(600 * 1024, 16, false));
    assert!(!use_parallel(600 * 1024, 15, false));
    assert!(!use_parallel(600 * 1024, 100, true));
    let phext = search_phext();
    let index = build_index_parallel(&phext, 4);
    assert_eq!(index.scroll_count(), 3);
    let hit = |n: usize| SearchHit { coordinate: coord("1.1.1/1.1.1/1.1.1"), offset: n, length: 1, context: String::new() };
    let merged = merge_hits(vec![vec![hit(1), hit(2)], vec![], vec![hit(3)]], 2);
    assert_eq!(merged.iter().map(|h| h.offset).collect::<Vec<_>>(), vec![1, 2]);
}

#[test]
fn sentron_builds() {
    let phext = sentron_phext();
    let index = LatticeIndex::build(&phext);
    let center = coord("1.1.1/1.1.1/1.1.1");
    let sentron = Sentron::build(&center, &index);
    assert_eq!(sentron.center, center);
    assert_eq!(sentron.size(), 5);
    assert!(sentron.size() <= SENTRON_CAPACITY);
}

#[test]
fn sentron_axons_structural_vs_sequential() {
    let phext = sentron_phext();
    let index = LatticeIndex::build(&phext);
    let sentron = Sentron::build(&coord("1.1.1/1.1.1/1.1.1"), &index);
    assert!(sentron.sequential_reach > 0 || sentron.structural_reach > 0);
}

#[test]
fn sentron_axon_counts() {
    let phext = sentron_phext();
    let index = LatticeIndex::build(&phext);
    let sentron = Sentron::build(&coord("1.1.1/1.1.1/1.1.1"), &index);
    let seq = sentron.sequential_axons();
    assert_eq!(seq.len(), 4);
    assert_eq!(seq[0].dimension, Dimension::Volume);
    assert_eq!(seq[1].dimension, Dimension::Book);
    assert_eq!(seq[1].forward_count, 1);
    assert_eq!(seq[1].forward_nearest, Some(coord("1.1.1/1.1.2/1.1.1")));
    assert_eq!(seq[3].dimension, Dimension::Section);
    assert_eq!(seq[3].forward_count, 1);
    assert_eq!(seq[3].backward_count, 0);
    assert_eq!(seq[2].forward_count, 1);
    assert_eq!(sentron.structural_axons()[0].total(), 0);
    assert_eq!(sentron.structural_reach, 0);
    assert_eq!(sentron.sequential_reach, 3);
    assert_eq!(sentron.max_axon_total, 1);
    assert_eq!(sentron.neurons[0].distance, 0);
    assert_eq!(sentron.neurons[0].coordinate, coord("1.1.1/1.1.1/1.1.1"));
}

#[test]
fn coord_distance_identity() {
    let c = coord("3.3.3/5.5.5/7.7.7");
    assert_eq!(coord_distance(&c, &c), 0);
}

#[test]
fn coord_distance_symmetry() {
    let a = coord("1.1.1/1.1.1/1.1.1");
    let b = coord("3.3.3/5.5.5/7.7.7");
    assert_eq!(coord_distance(&a, &b), coord_distance(&b, &a));
    assert_eq!(coord_distance(&a, &b), 6 + 12 + 18);
}

#[test]
fn sentron_capacity() {
    let mut buf = Vec::new();
    for i in 0..50 {
        buf.extend_from_slice(format!("scroll {}", i).as_bytes());
        if i < 49 {
            buf.push(0x17);
        }
    }
    let index = LatticeIndex::build(&buf);
    let sentron = Sentron::build(&coord("1.1.1/1.1.1/1.1.1"), &index);
    assert_eq!(sentron.size(), SENTRON_CAPACITY);
}

#[test]
fn topology_string_renders() {
    let phext = sentron_phext();
    let index = LatticeIndex::build(&phext);
    let sentron = Sentron::build(&coord("1.1.1/1.1.1/1.1.1"), &index);
    let topo = sentron.topology_string();
    assert!(topo.contains("spatial"));
    assert!(topo.contains("temporal"));
    assert!(topo.len() > 50);
    assert!(topo.contains("Sect"));
    assert!(topo.contains("+ 1█"));
}

#[test]
fn scroll_stats_basic() {
    let data = b"Hello World\nSecond line\nThird";
    let stats = ScrollStats::from_bytes(data);
    assert_eq!(stats.line_count, 3);
    assert_eq!(stats.word_count, 5);
    assert_eq!(stats.byte_size, data.len());
}

#[test]
fn scroll_stats_edges() {
    let empty = ScrollStats::from_bytes(b"");
    assert_eq!((empty.line_count, empty.word_count, empty.char_count), (0, 0, 0));
    let uni = ScrollStats::from_bytes("héllo  wörld\n".as_bytes());
    assert_eq!(uni.char_count, 13);
    assert_eq!(uni.word_count, 2);
    assert_eq!(uni.line_count, 1);
    let bad = ScrollStats::from_bytes(&[0xff, b'a']);
    assert_eq!(bad.byte_size, 2);
    assert_eq!((bad.line_count, bad.word_count, bad.char_count), (0, 0, 0));
}

#[test]
fn size_display() {
    assert_eq!(ScrollStats::from_bytes(b"hi").size_display(), "2 B");
    assert_eq!(ScrollStats::from_bytes(&vec![0u8; 2048]).size_display(), "2.0 KB");
}

#[test]
fn size_display_rounding() {
    let s = |n: usize| ScrollStats { byte_size: n, line_count: 0, word_count: 0, char_count: 0 }.size_display();
    assert_eq!(s(1023), "1023 B");
    assert_eq!(s(1536), "1.5 KB");
    assert_eq!(s(1024 * 1024 - 1), "1024.0 KB");
    assert_eq!(s(3 * 1024 * 1024 / 2), "1.50 MB");
    assert_eq!(s(5 * 1024 * 1024), "5.00 MB");
}

#[test]
fn dimension_density() {
    let phext = stats_phext();
    let index = LatticeIndex::build(&phext);
    let density = DimensionDensity::build(Dimension::Scroll, &index);
    assert!(density.distinct_values() > 0);
    assert_eq!(density.total, 3);
    assert_eq!(density.distribution, vec![(1, 2), (2, 1)]);
    assert_eq!(density.max_count, 2);
    assert_eq!(density.range(), Some((1, 2)));
    let empty = DimensionDensity::build(Dimension::Scroll, &LatticeIndex::build(b""));
    assert_eq!(empty.range(), None);
}

#[test]
fn lattice_overview() {
    let phext = stats_phext();
    let index = LatticeIndex::build(&phext);
    let overview = LatticeOverview::build(&phext, &index);
    assert_eq!(overview.total_scrolls, 3);
    assert!(overview.largest_scroll.is_some());
    assert!(overview.smallest_scroll.is_some());
    assert_eq!(overview.dimension_densities.len(), 9);
    assert_eq!(overview.smallest_scroll, Some((coord("1.1.1/1.1.1/1.1.2"), 5)));
    assert_eq!(overview.largest_scroll, Some((coord("1.1.1/1.1.1/1.2.1"), 57)));
    assert_eq!(overview.avg_scroll_size, (21 + 5 + 57) / 3);
    assert_eq!(overview.total_bytes, phext.len());
}

#[test]
fn neighborhood_counts() {
    let phext = sentron_phext();
    let index = LatticeIndex::build(&phext);
    let n = Neighborhood::build(&coord("1.1.1/1.1.1/1.1.1"), &index);
    assert_eq!(n.same_z, 5);
    assert_eq!(n.same_y, 4);
    assert_eq!(n.same_x, 2);
    assert_eq!(n.dim_neighbors[0], (None, None));
    assert_eq!(n.dim_neighbors[8], (None, None));
}

#[test]
fn neighborhood_finds_scroll_neighbors() {
    let mut buf = b"a".to_vec();
    buf.extend_from_slice(&[0x17; 6]);
    buf.push(b'b');
    let index = LatticeIndex::build(&buf);
    let n = Neighborhood::build(&coord("1.1.1/1.1.1/1.1.5"), &index);
    assert_eq!(n.dim_neighbors[0], (Some(coord("1.1.1/1.1.1/1.1.1")), Some(coord("1.1.1/1.1.1/1.1.7"))));
    assert_eq!(n.same_x, 2);
}

#[test]
fn size_display_matches_float_formatting() {
    let s = |n: usize| ScrollStats { byte_size: n, line_count: 0, word_count: 0, char_count: 0 }.size_display();
    let mut n = 1024;
    while n < 1024 * 1024 {
        assert_eq!(s(n), format!("{:.1} KB", n as f64 / 1024.0));
        n += 31;
    }
    for k in 1..1024usize {
        for extra in [256usize, 768] {
            let n = k * 1024 + extra;
            assert_eq!(s(n), format!("{:.1} KB", n as f64 / 1024.0));
        }
    }
    let mut n = 1024 * 1024;
    while n < 64 * 1024 * 1024 {
        assert_eq!(s(n), format!("{:.2} MB", n as f64 / (1024.0 * 1024.0)));
        n += 104_729;
    }
    for k in 1..64usize {
        for extra in [5_242usize, 5_243, 10_485, 10_486, 131_072, 393_216, 655_360, 917_504] {
            let n = k * 1024 * 1024 + extra;
            assert_eq!(s(n), format!("{:.2} MB", n as f64 / (1024.0 * 1024.0)));
        }
    }
}

#[test]
fn search_coordinates_matches_arm_prefixes() {
    let index = LatticeIndex::build(&search_phext());
    assert_eq!(search_coordinates(&index, "1.1.1").len(), 3);
    assert_eq!(search_coordinates(&index, "1.2"), vec![coord("1.1.1/1.1.1/1.2.1")]);
    assert!(search_coordinates(&index, "1/1").is_empty());
}

#[test]
fn index_spans_are_the_runs_between_delimiters() {
    let mut buf = b"ab".to_vec();
    buf.push(0x17);
    buf.push(0x17);
    buf.extend_from_slice(b"cd");
    buf.push(0x18);
    buf.push(b'e');
    let index = LatticeIndex::build(&buf);
    let cs = index.coordinates();
    assert_eq!(cs, vec![coord("1.1.1/1.1.1/1.1.1"), coord("1.1.1/1.1.1/1.1.3"), coord("1.1.1/1.1.1/1.2.1")]);
    let spans: Vec<(usize, usize)> = cs.iter().map(|c| {
        let s = index.get(c).unwrap();
        (s.start, s.end)
    }).collect();
    assert_eq!(spans, vec![(0, 2), (4, 6), (7, 8)]);
}

#[test]
fn full_scroll_searches_merge_to_the_serial_hits() {
    let buf = search_phext();
    let index = LatticeIndex::build(&buf);
    for max in [0usize, 1, 2, 3, 10] {
        let groups: Vec<Vec<SearchHit>> = index.coordinates().iter().map(|c| {
            let s = index.get(c).unwrap();
            search_scroll(*c, &buf[s.start..s.end], "o", "o", false, max).unwrap_or_default()
        }).collect();
        let merged: Vec<(Coordinate, usize)> = merge_hits(groups, max).iter().map(|h| (h.coordinate, h.offset)).collect();
        let serial: Vec<(Coordinate, usize)> = search_lattice(&buf, &index, "o", false, max).iter().map(|h| (h.coordinate, h.offset)).collect();
        assert_eq!(merged, serial);
    }
}

#[test]
fn size_display_has_no_upper_bound() {
    let s = ScrollStats { byte_size: usize::MAX, line_count: 0, word_count: 0, char_count: 0 };
    assert_eq!(s.size_display(), "17592186044416.00 MB");
}

#[test]
fn each_delimiter_opens_its_dimension() {
    for d in 1..=9u8 {
        let dim = Dimension::from_index(d).unwrap();
        let bytes = [b'a', dim.delimiter(), b'b'];
        let index = LatticeIndex::build(&bytes);
        let cs = index.coordinates();
        assert_eq!(cs.len(), 2);
        assert_eq!(cs[0], coord("1.1.1/1.1.1/1.1.1"));
        let mut expected = coord("1.1.1/1.1.1/1.1.1");
        expected = expected.put_dim(dim, 2);
        assert_eq!(cs[1], expected);
    }
}

#[test]
fn index_stays_ordered_when_only_trailing_breaks_saturate() {
    let mut buf = b"a".to_vec();
    buf.extend(std::iter::repeat(0x17u8).take(998));
    buf.push(b'b');
    buf.push(0x17);
    let index = LatticeIndex::build(&buf);
    let cs = index.coordinates();
    assert_eq!(cs, vec![coord("1.1.1/1.1.1/1.1.1"), coord("1.1.1/1.1.1/1.1.999")]);
}
