use std::path::PathBuf;

use memmap2::{Mmap, MmapMut};
use phext_lattice::session::{address_fits_check, NavSession, SessionKey, SessionMode, Tone};
use phext_lattice::MappedLattice;

fn mapping(bytes: &[u8]) -> Mmap {
    let mut m = MmapMut::map_anon(bytes.len().max(1)).unwrap();
    m[..bytes.len()].copy_from_slice(bytes);
    m.make_read_only().unwrap()
}

fn lattice_of(bytes: &[u8]) -> MappedLattice {
    MappedLattice::from_mapping(mapping(bytes), PathBuf::new(), None)
}

fn sample() -> Vec<u8> {
    let mut buf = Vec::new();
    buf.extend_from_slice(b"scroll one");
    buf.push(0x17);
    buf.extend_from_slice(b"Scroll two\nline");
    buf.push(0x18);
    buf.extend_from_slice(b"section two");
    buf
}

fn session() -> NavSession {
    NavSession::new(lattice_of(&sample()))
}

fn press(s: &mut NavSession, key: SessionKey) -> bool {
    s.handle_key(key, false)
}

fn type_text(s: &mut NavSession, text: &str) {
    for c in text.chars() {
        press(s, SessionKey::Char(c));
    }
}

fn position(s: &NavSession) -> String {
    s.lattice_view()[0][1].0.clone()
}

#[test]
fn session_starts_at_origin() {
    let s = session();
    assert_eq!(s.mode, SessionMode::Lattice);
    assert_eq!(position(&s), "1.1.1/1.1.1/1.1.1");
    assert_eq!(s.status_line(), " 1.1.1/1.1.1/1.1.1 [dim:1 Scroll]  \u{2190} \u{2014} | 2 \u{2192}  [3 scrolls] \u{25cf}");
    assert_eq!(
        s.help_line(),
        "1-9:dim  h/l:move  j/k:populated  Enter:view  g:goto  /:search  m:mark  ':jump  q:quit"
    );
}

#[test]
fn session_without_origin_starts_at_first_scroll() {
    let mut buf = vec![0x18u8];
    buf.extend_from_slice(b"later");
    let s = NavSession::new(lattice_of(&buf));
    assert_eq!(position(&s), "1.1.1/1.1.1/1.2.1");
}

#[test]
fn lattice_keys_move() {
    let mut s = session();
    assert!(!press(&mut s, SessionKey::Char('j')));
    assert_eq!(position(&s), "1.1.1/1.1.1/1.1.2");
    press(&mut s, SessionKey::Down);
    assert_eq!(position(&s), "1.1.1/1.1.1/1.2.1");
    press(&mut s, SessionKey::Down);
    assert_eq!(s.help_line(), "No more populated scrolls");
    press(&mut s, SessionKey::Char('k'));
    assert_eq!(position(&s), "1.1.1/1.1.1/1.1.2");
    press(&mut s, SessionKey::Char('2'));
    press(&mut s, SessionKey::Char('l'));
    assert_eq!(position(&s), "1.1.1/1.1.1/1.2.1");
    press(&mut s, SessionKey::Char('h'));
    assert_eq!(position(&s), "1.1.1/1.1.1/1.1.1");
    press(&mut s, SessionKey::Left);
    assert_eq!(s.help_line(), "At minimum");
    press(&mut s, SessionKey::Char('['));
    assert_eq!(position(&s), "1.1.1/1.1.1/1.2.1");
    press(&mut s, SessionKey::Char(']'));
    assert_eq!(position(&s), "1.1.1/1.1.1/1.1.1");
    press(&mut s, SessionKey::Char(']'));
    assert_eq!(s.help_line(), "At latest");
}

#[test]
fn marks_and_quit() {
    let mut s = session();
    press(&mut s, SessionKey::Char('\''));
    assert_eq!(s.help_line(), "No marks");
    press(&mut s, SessionKey::Char('m'));
    assert_eq!(s.help_line(), "Mark set");
    press(&mut s, SessionKey::Char('j'));
    press(&mut s, SessionKey::Char('\''));
    assert_eq!(position(&s), "1.1.1/1.1.1/1.1.1");
    assert!(press(&mut s, SessionKey::Char('q')));
    assert!(s.handle_key(SessionKey::Char('c'), true));
}

#[test]
fn scroll_view_scrolls() {
    let mut s = session();
    press(&mut s, SessionKey::Enter);
    assert_eq!(s.mode, SessionMode::ScrollView);
    assert_eq!(s.scroll_title(), " 1.1.1/1.1.1/1.1.1 ");
    assert_eq!(s.scroll_text(), "scroll one");
    press(&mut s, SessionKey::Char('j'));
    press(&mut s, SessionKey::PageDown);
    assert_eq!(s.scroll_offset, 21);
    press(&mut s, SessionKey::PageUp);
    press(&mut s, SessionKey::PageUp);
    assert_eq!(s.scroll_offset, 0);
    assert_eq!(s.help_line(), "j/k:scroll  PgUp/PgDn  Esc:back");
    press(&mut s, SessionKey::Esc);
    assert_eq!(s.mode, SessionMode::Lattice);
    press(&mut s, SessionKey::Char('5'));
    press(&mut s, SessionKey::Char('l'));
    press(&mut s, SessionKey::Enter);
    assert_eq!(s.mode, SessionMode::Lattice);
    assert_eq!(s.help_line(), "Empty coordinate");
}

#[test]
fn goto_reads_a_coordinate() {
    let mut s = session();
    press(&mut s, SessionKey::Char('g'));
    assert_eq!(s.mode, SessionMode::GotoInput);
    type_text(&mut s, "2.3.4/5.6.7/8.9.x");
    press(&mut s, SessionKey::Backspace);
    type_text(&mut s, "1");
    assert_eq!(s.input_line().unwrap(), "Goto coordinate: 2.3.4/5.6.7/8.9.1_");
    assert_eq!(s.help_line(), "Enter:jump  Esc:cancel");
    press(&mut s, SessionKey::Enter);
    assert_eq!(s.mode, SessionMode::Lattice);
    assert_eq!(position(&s), "2.3.4/5.6.7/8.9.1");
    assert_eq!(s.help_line(), "Jumped to 2.3.4/5.6.7/8.9.1");
    assert!(s.input_line().is_none());
}

#[test]
fn goto_refuses_values_past_u32() {
    let mut s = session();
    press(&mut s, SessionKey::Char('g'));
    type_text(&mut s, "1.1.1/1.1.1/1.1.99999999999");
    press(&mut s, SessionKey::Enter);
    assert_eq!(s.help_line(), "Coordinate out of range");
    assert_eq!(position(&s), "1.1.1/1.1.1/1.1.1");
    assert!(address_fits_check(b"4294967295"));
    assert!(!address_fits_check(b"4294967296"));
    assert!(address_fits_check(b"4294967295.4294967295"));
}

#[test]
fn search_walks_hits() {
    let mut s = session();
    press(&mut s, SessionKey::Char('/'));
    type_text(&mut s, "scroll");
    assert_eq!(s.input_line().unwrap(), "Search: scroll_");
    press(&mut s, SessionKey::Enter);
    assert_eq!(s.mode, SessionMode::SearchResults);
    assert_eq!(s.results_title(), " Search: 2 results ");
    let rows = s.result_rows();
    assert_eq!(rows.len(), 2);
    assert_eq!(rows[0].0, "1.1.1/1.1.1/1.1.1 \u{2014} scroll one");
    assert!(rows[0].1);
    assert_eq!(rows[1].0, "1.1.1/1.1.1/1.1.2 \u{2014} Scroll two line");
    assert!(!rows[1].1);
    press(&mut s, SessionKey::Char('j'));
    press(&mut s, SessionKey::Down);
    assert!(s.result_rows()[1].1);
    press(&mut s, SessionKey::Enter);
    assert_eq!(s.mode, SessionMode::Lattice);
    assert_eq!(position(&s), "1.1.1/1.1.1/1.1.2");
    assert_eq!(s.help_line(), "2 hits for \"scroll\"");
}

#[test]
fn search_without_hits_returns_to_lattice() {
    let mut s = session();
    press(&mut s, SessionKey::Char('/'));
    type_text(&mut s, "absent");
    press(&mut s, SessionKey::Enter);
    assert_eq!(s.mode, SessionMode::Lattice);
    assert_eq!(s.help_line(), "0 hits for \"absent\"");
}

#[test]
fn lattice_screen_lines() {
    let s = session();
    let lines = s.lattice_view();
    assert_eq!(lines[0], vec![("  Position: ".to_string(), Tone::Label), ("1.1.1/1.1.1/1.1.1".to_string(), Tone::Strong)]);
    assert!(lines[1].is_empty());
    assert_eq!(lines[2][1], ("Scroll (1)".to_string(), Tone::Accent));
    assert_eq!(lines[4], vec![("  Content: ".to_string(), Tone::Label)]);
    assert_eq!(lines[5], vec![("  scroll one".to_string(), Tone::Content)]);
    assert!(lines[6].is_empty());
    assert_eq!(lines[7], vec![("  Next: ".to_string(), Tone::Label), ("1.1.1/1.1.1/1.1.2".to_string(), Tone::Link)]);
    assert!(lines[8].is_empty());
    assert_eq!(lines[9], vec![("  Dimensions: ".to_string(), Tone::Faint)]);
    assert_eq!(lines[10], vec![("    1 Scroll = 1".to_string(), Tone::Selected)]);
    assert_eq!(lines[11], vec![("    2 Section = 1".to_string(), Tone::Faint)]);
    assert_eq!(lines.len(), 19);
}

#[test]
fn long_scrolls_show_their_size() {
    let text = "x".repeat(250);
    let s = NavSession::new(lattice_of(text.as_bytes()));
    let lines = s.lattice_view();
    assert_eq!(lines[5][0].0.len(), 202);
    assert_eq!(lines[6], vec![("  ... (250 bytes total)".to_string(), Tone::Faint)]);
}
