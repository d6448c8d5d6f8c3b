use std::path::PathBuf;

use memmap2::{Mmap, MmapMut};
use phext_lattice::coordinate::{XCoordinate, YCoordinate, ZCoordinate};
use phext_lattice::{Coordinate, MappedLattice};

fn coord(s: &str) -> Coordinate {
    let v: Vec<usize> = s.split(|c| c == '.' || c == '/').map(|p| p.parse().unwrap()).collect();
    Coordinate {
        z: ZCoordinate { library: v[0], shelf: v[1], series: v[2] },
        y: YCoordinate { collection: v[3], volume: v[4], book: v[5] },
        x: XCoordinate { chapter: v[6], section: v[7], scroll: v[8] },
    }
}

fn mapping(bytes: &[u8]) -> Mmap {
    let mut m = MmapMut::map_anon(bytes.len().max(1)).unwrap();
    m[..bytes.len()].copy_from_slice(bytes);
    let ro = m.make_read_only().unwrap();
    assert_eq!(ro.len(), bytes.len().max(1));
    ro
}

fn lattice_of(bytes: &[u8]) -> MappedLattice {
    assert!(!bytes.is_empty());
    MappedLattice::from_mapping(mapping(bytes), PathBuf::new(), None)
}

fn test_phext() -> Vec<u8> {
    let mut buf = Vec::new();
    buf.extend_from_slice(b"scroll one");
    buf.push(0x17);
    buf.extend_from_slice(b"scroll two");
    buf.push(0x18);
    buf.extend_from_slice(b"section two");
    buf
}

#[test]
fn open_and_read() {
    let lattice = lattice_of(&test_phext());
    assert_eq!(lattice.read_scroll(&coord("1.1.1/1.1.1/1.1.1")).unwrap(), "scroll one");
    assert_eq!(lattice.read_scroll(&coord("1.1.1/1.1.1/1.1.2")).unwrap(), "scroll two");
    assert_eq!(lattice.read_scroll(&coord("1.1.1/1.1.1/1.2.1")).unwrap(), "section two");
    assert!(lattice.read_scroll(&coord("1.1.1/1.1.1/1.1.3")).is_none());
}

#[test]
fn edit_overlay() {
    let mut lattice = lattice_of(&test_phext());
    let c1 = coord("1.1.1/1.1.1/1.1.1");
    assert!(!lattice.is_dirty());
    lattice.write_scroll(c1, "modified".to_string());
    assert!(lattice.is_dirty());
    assert_eq!(lattice.read_scroll(&c1).unwrap(), "modified");
    assert_eq!(lattice.pending_changes(), 1);
    lattice.write_scroll(c1, "again".to_string());
    assert_eq!(lattice.pending_changes(), 1);
    assert_eq!(lattice.read_scroll(&c1).unwrap(), "again");
}

#[test]
fn insert_new_scroll() {
    let mut lattice = lattice_of(&test_phext());
    let new_coord = coord("2.2.2/2.2.2/2.2.2");
    assert!(!lattice.has_scroll(&new_coord));
    lattice.write_scroll(new_coord, "new content".to_string());
    assert!(lattice.has_scroll(&new_coord));
    assert_eq!(lattice.read_scroll(&new_coord).unwrap(), "new content");
}

#[test]
fn delete_scroll() {
    let mut lattice = lattice_of(&test_phext());
    let c1 = coord("1.1.1/1.1.1/1.1.1");
    lattice.delete_scroll(c1);
    assert!(!lattice.has_scroll(&c1));
    assert!(lattice.read_scroll(&c1).is_none());
}

#[test]
fn delete_inserted_scroll_leaves_no_trace() {
    let mut lattice = lattice_of(&test_phext());
    let c = coord("3.1.1/1.1.1/1.1.1");
    lattice.write_scroll(c, "temp".to_string());
    lattice.delete_scroll(c);
    assert!(!lattice.is_dirty());
    assert!(!lattice.has_scroll(&c));
}

#[test]
fn revert_discards_changes() {
    let mut lattice = lattice_of(&test_phext());
    let c1 = coord("1.1.1/1.1.1/1.1.1");
    lattice.write_scroll(c1, "modified".to_string());
    lattice.revert();
    assert!(!lattice.is_dirty());
    assert_eq!(lattice.read_scroll(&c1).unwrap(), "scroll one");
}

#[test]
fn roundtrip_to_phext() {
    let bytes = test_phext();
    let lattice = lattice_of(&bytes);
    assert_eq!(lattice.to_phext_bytes(), bytes);
    assert_eq!(lattice.raw_buffer().unwrap(), &bytes[..]);
}

#[test]
fn rebuilt_bytes_follow_the_overlay() {
    let mut lattice = lattice_of(&test_phext());
    lattice.delete_scroll(coord("1.1.1/1.1.1/1.1.2"));
    lattice.write_scroll(coord("1.1.2/1.1.1/1.1.1"), "far".to_string());
    let mut expected = b"scroll one".to_vec();
    expected.push(0x18);
    expected.extend_from_slice(b"section two");
    expected.push(0x1E);
    expected.extend_from_slice(b"far");
    assert_eq!(lattice.to_phext_bytes(), expected);
    assert!(lattice.raw_buffer().is_none());
}

#[test]
fn populated_coordinates_reflects_overlay() {
    let mut lattice = lattice_of(&test_phext());
    let original_count = lattice.scroll_count();
    lattice.write_scroll(coord("5.5.5/5.5.5/5.5.5"), "far away".to_string());
    assert_eq!(lattice.scroll_count(), original_count + 1);
    lattice.delete_scroll(coord("1.1.1/1.1.1/1.1.1"));
    assert_eq!(lattice.scroll_count(), original_count);
    assert_eq!(
        lattice.populated_coordinates(),
        vec![coord("1.1.1/1.1.1/1.1.2"), coord("1.1.1/1.1.1/1.2.1"), coord("5.5.5/5.5.5/5.5.5")]
    );
}

#[test]
fn replacing_the_mapping_rebuilds_the_index() {
    let mut lattice = lattice_of(&test_phext());
    lattice.write_scroll(coord("1.1.1/1.1.1/1.1.1"), "x".to_string());
    lattice.replace_mapping(mapping(b"fresh"));
    assert!(!lattice.is_dirty());
    assert_eq!(lattice.index().scroll_count(), 1);
    assert_eq!(lattice.read_scroll(&coord("1.1.1/1.1.1/1.1.1")).unwrap(), "fresh");
    lattice.set_path(PathBuf::from("doc.phext"));
    assert_eq!(lattice.path(), &PathBuf::from("doc.phext"));
}

#[test]
fn saved_document_reads_back() {
    let mut lattice = lattice_of(&test_phext());
    lattice.write_scroll(coord("1.1.1/1.1.1/1.1.2"), "changed two".to_string());
    lattice.write_scroll(coord("2.1.1/1.1.1/1.1.1"), "new library".to_string());
    lattice.delete_scroll(coord("1.1.1/1.1.1/1.2.1"));
    let saved = lattice_of(&lattice.to_phext_bytes());
    for c in ["1.1.1/1.1.1/1.1.1", "1.1.1/1.1.1/1.1.2", "1.1.1/1.1.1/1.2.1", "2.1.1/1.1.1/1.1.1", "3.1.1/1.1.1/1.1.1"] {
        assert_eq!(saved.read_scroll(&coord(c)), lattice.read_scroll(&coord(c)));
    }
    assert_eq!(saved.scroll_count(), 3);
}

#[test]
fn trailing_delimiter_is_kept() {
    let mut bytes = b"a".to_vec();
    bytes.push(0x17);
    let lattice = lattice_of(&bytes);
    assert_eq!(lattice.to_phext_bytes(), bytes);
}

#[test]
fn invalid_bytes_read_lossily() {
    let lattice = lattice_of(&[b'a', 0xff, b'b', 0x17, b'o', b'k']);
    assert_eq!(lattice.read_scroll(&coord("1.1.1/1.1.1/1.1.1")).unwrap(), "a\u{FFFD}b");
    assert_eq!(lattice.read_scroll(&coord("1.1.1/1.1.1/1.1.2")).unwrap(), "ok");
}

#[test]
fn empty_scroll_disappears_on_rebuild() {
    let mut lattice = lattice_of(&test_phext());
    lattice.write_scroll(coord("1.1.1/1.1.1/1.1.2"), "".to_string());
    lattice.write_scroll(coord("1.2.1/1.1.1/1.1.1"), "later".to_string());
    let saved = lattice_of(&lattice.to_phext_bytes());
    assert_eq!(saved.read_scroll(&coord("1.1.1/1.1.1/1.1.2")), None);
    assert_eq!(saved.read_scroll(&coord("1.1.1/1.1.1/1.1.1")).unwrap(), "scroll one");
    assert_eq!(saved.read_scroll(&coord("1.1.1/1.1.1/1.2.1")).unwrap(), "section two");
    assert_eq!(saved.read_scroll(&coord("1.2.1/1.1.1/1.1.1")).unwrap(), "later");
    assert_eq!(saved.scroll_count(), 3);
}
