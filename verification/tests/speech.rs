use phext_lattice::coordinate::{XCoordinate, YCoordinate, ZCoordinate};
use phext_lattice::tts::{batch_row, extract_coordinates, syllable_meaning, try_parse_coord, SubCoord};
use phext_lattice::{
    artifacts_in_phase, byte_to_syllable, dim_to_syllables, generate_pronunciation_doc,
    special_coords, to_ssml, trace_artifact, ArtifactAddr, Coordinate, CoordPronunciation,
    LatticeIndex, Phase, UmlContext,
};

fn coord(s: &str) -> Coordinate {
    let v: Vec<usize> = s.split(|c| c == '.' || c == '/').map(|p| p.parse().unwrap()).collect();
    Coordinate {
        z: ZCoordinate { library: v[0], shelf: v[1], series: v[2] },
        y: YCoordinate { collection: v[3], volume: v[4], book: v[5] },
        x: XCoordinate { chapter: v[6], section: v[7], scroll: v[8] },
    }
}

#[test]
fn test_zero() {
    assert_eq!(byte_to_syllable(0), "om");
}

#[test]
fn test_basic_syllables() {
    assert_eq!(byte_to_syllable(1), "a");
    assert_eq!(byte_to_syllable(2), "ba");
    assert_eq!(byte_to_syllable(3), "pa");
    assert_eq!(byte_to_syllable(4), "e");
    assert_eq!(byte_to_syllable(5), "be");
    assert_eq!(byte_to_syllable(7), "i");
    assert_eq!(byte_to_syllable(10), "o");
    assert_eq!(byte_to_syllable(13), "u");
}

#[test]
fn test_with_coda() {
    assert_eq!(byte_to_syllable(16), "ap");
    assert_eq!(byte_to_syllable(31), "at");
    assert_eq!(byte_to_syllable(255), "puzh");
}

#[test]
fn test_origin() {
    let origin = CoordPronunciation::parse("1.1.1/1.1.1/1.1.1").unwrap();
    assert_eq!(origin.pronounce(), "a a a om a a a om a a a");
}

#[test]
fn test_pi() {
    let pi = CoordPronunciation::parse("3.1.4/1.5.9/2.6.5").unwrap();
    assert_eq!(pi.pronounce(), "pa a e om a be pi om ba pe be");
}

#[test]
fn test_boundary() {
    let boundary = CoordPronunciation::parse("9.9.9/9.9.9/9.9.9").unwrap();
    assert_eq!(boundary.pronounce(), "pi pi pi om pi pi pi om pi pi pi");
}

#[test]
fn multi_byte_values() {
    assert_eq!(dim_to_syllables(0), "om");
    assert_eq!(dim_to_syllables(255), "puzh");
    assert_eq!(dim_to_syllables(256), "a-om");
    assert_eq!(dim_to_syllables(65536), "a-om-om");
}

#[test]
fn parse_rejects_bad_shapes() {
    assert!(CoordPronunciation::parse("1.1.1/1.1.1").is_none());
    assert!(CoordPronunciation::parse("1.1/1.1.1/1.1.1").is_none());
    assert!(CoordPronunciation::parse("1.1.1/1.1.1/1.1.1/1.1.1").is_none());
    assert!(CoordPronunciation::parse("1.x.1.1/2.2.2/3.3.3").is_none());
}

#[test]
fn pronunciation_forms() {
    let p = CoordPronunciation::from_coordinate(&coord("1.2.3/4.5.6/7.8.9"));
    assert_eq!(p.pronounce_compact(), "a ba pa / e be pe / i bi pi");
    assert_eq!(p.pronounce_verbose(), "Library: a · ba · pa om Volume: e · be · pe om Scroll: i · bi · pi");
    assert_eq!(SubCoord::new(1, 2, 3).pronounce_verbose(), "a · ba · pa");
    let big = CoordPronunciation::parse("1.1.1/1.1.1/1.1.255").unwrap();
    assert_eq!(big.ipa_hint(), "a a a om a a a om a a puʒ");
    let sh = CoordPronunciation::parse("1.1.1/1.1.1/1.1.226").unwrap();
    assert_eq!(sh.ipa_hint(), "a a a om a a a om a a aʃ");
}

#[test]
fn ssml_output() {
    assert_eq!(to_ssml("bad", "slow"), "<speak>Invalid coordinate: bad</speak>");
    let s = to_ssml("1.1.1/1.1.1/1.1.1", "slow");
    assert_eq!(
        s,
        "<speak>\n  <prosody rate=\"slow\">\n    <say-as interpret-as=\"spell-out\">1.1.1/1.1.1/1.1.1</say-as>\n    <break time=\"200ms\"/>\n    a a a om a a a om a a a\n  </prosody>\n</speak>"
    );
}

#[test]
fn pronunciation_doc() {
    let doc = generate_pronunciation_doc(&["1.1.1/1.1.1/1.1.1", "nope"]);
    assert!(doc.starts_with("# Phext Coordinate Pronunciation Guide\n\n"));
    assert!(doc.contains("| 0 | om | silence |\n"));
    assert!(doc.contains("| 15 | pu | 1 + 2 + 3×4 + 15×0 |\n"));
    assert!(doc.ends_with("| 1.1.1/1.1.1/1.1.1 | a a a om a a a om a a a |\n"));
    assert!(!doc.contains("nope"));
}

#[test]
fn special_coordinates() {
    let sc = special_coords();
    assert_eq!(sc.len(), 6);
    assert_eq!(sc[0].0, "1.1.1/1.1.1/1.1.1");
    assert_eq!(sc[0].1, "Origin");
    assert_eq!(sc[1].2, "pa a e om a be pi om ba pe be");
    assert_eq!(sc[5].2, "a a a om o o o om a be ba");
}

#[test]
fn extraction_and_meaning() {
    let found = extract_coordinates("see 2.2.2/1.1.1/3.3.3 and 1.1.1/1.1.1/1.1.1, again 2.2.2/1.1.1/3.3.3.");
    assert_eq!(found, vec!["1.1.1/1.1.1/1.1.1".to_string(), "2.2.2/1.1.1/3.3.3".to_string()]);
    assert!(extract_coordinates("no coordinates 1.2 here").is_empty());
    let chars: Vec<char> = "x1.2.3/4.5.6/7.8.9y".chars().collect();
    assert_eq!(try_parse_coord(&chars, 1), Some(("1.2.3/4.5.6/7.8.9".to_string(), 18)));
    assert_eq!(syllable_meaning(1), "Open Earth (a)");
    assert_eq!(syllable_meaning(0), "");
}

#[test]
fn phase_roundtrip() {
    for phase in Phase::all().iter() {
        assert_eq!(Phase::from_collection(phase.collection()), Some(*phase));
    }
    assert_eq!(Phase::from_collection(0), None);
    assert_eq!(Phase::from_collection(10), None);
    assert_eq!(Phase::Source.short(), "SRC");
    assert_eq!(Phase::Docs.color(), "#7090e0");
}

#[test]
fn artifact_addr_from_coordinate() {
    let addr = ArtifactAddr::from_coordinate(&coord("1.1.1/4.2.3/1.2.5"));
    assert_eq!(addr.volume, 2);
    assert_eq!(addr.book, 3);
    assert_eq!(addr.chapter, 1);
    assert_eq!(addr.section, 2);
    assert_eq!(addr.scroll, 5);
}

#[test]
fn artifact_addr_to_coordinate() {
    let addr = ArtifactAddr { volume: 2, book: 3, chapter: 1, section: 2, scroll: 5 };
    let c = addr.to_coordinate(Phase::Source);
    assert_eq!(c.y.collection, 4);
    assert_eq!(c.y.volume, 2);
    assert_eq!(c.y.book, 3);
    assert_eq!(c.x.chapter, 1);
    assert_eq!(c.x.section, 2);
    assert_eq!(c.x.scroll, 5);
    assert_eq!(c.z, ZCoordinate { library: 1, shelf: 1, series: 1 });
}

#[test]
fn context_from_coordinate() {
    let ctx = UmlContext::from_coordinate(&coord("1.1.1/3.1.2/1.1.1"));
    assert_eq!(ctx.phase, Some(Phase::Design));
    assert_eq!(ctx.phase_name, "Design");
    assert_eq!(ctx.artifact_label, "1.2.1/1.1");
    let other = UmlContext::from_coordinate(&coord("1.1.1/12.1.2/1.1.1"));
    assert_eq!(other.phase, None);
    assert_eq!(other.phase_name, "Phase 12");
}

#[test]
fn artifact_display() {
    let addr = ArtifactAddr { volume: 1, book: 2, chapter: 3, section: 4, scroll: 5 };
    assert_eq!(addr.display(), "1.2.3/4.5");
}

#[test]
fn tracing_and_listing_artifacts() {
    let mut buf = b"meta".to_vec();
    buf.push(0x1D);
    buf.extend_from_slice(b"req");
    let index = LatticeIndex::build(&buf);
    let addr = ArtifactAddr { volume: 1, book: 1, chapter: 1, section: 1, scroll: 1 };
    let trace = trace_artifact(&addr, &index, 1, 1, 1);
    assert_eq!(trace.len(), 9);
    assert_eq!(trace[0], (Phase::Meta, true));
    assert_eq!(trace[1], (Phase::Requirements, true));
    assert_eq!(trace[2], (Phase::Design, false));
    let coords = vec![coord("1.1.1/2.3.1/1.1.1"), coord("1.1.1/2.1.1/1.1.1"), coord("1.1.1/1.1.1/1.1.1"), coord("9.9.9/2.1.1/1.1.1")];
    let listed = artifacts_in_phase(Phase::Requirements, &index, &coords);
    assert_eq!(
        listed,
        vec![
            ArtifactAddr { volume: 1, book: 1, chapter: 1, section: 1, scroll: 1 },
            ArtifactAddr { volume: 3, book: 1, chapter: 1, section: 1, scroll: 1 },
        ]
    );
}

#[test]
fn batch_lines_become_rows() {
    let row = batch_row("  1.1.1/1.1.1/1.1.1 \t").unwrap();
    assert_eq!(row.0, "1.1.1/1.1.1/1.1.1");
    assert_eq!(row.1, "a a a om a a a om a a a");
    assert!(batch_row("").is_none());
    assert!(batch_row("   ").is_none());
    assert!(batch_row("1.1.1").is_none());
    assert!(batch_row("1.1.1/1.1").is_none());
    assert!(batch_row("# comment / here").is_none());
}

#[test]
fn nonzero_bytes_sound_distinct() {
    assert_eq!(byte_to_syllable(106), "am");
    assert_eq!(byte_to_syllable(115), "om");
    let all: std::collections::HashSet<String> = (1..=255u8).map(byte_to_syllable).collect();
    assert_eq!(all.len(), 255);
}

#[test]
fn parse_wants_three_numerals_per_arm() {
    assert!(CoordPronunciation::parse("1.1.1/1.1.1").is_none());
    assert!(CoordPronunciation::parse("1.x.1.1/1.1.1/1.1.1").is_none());
    assert!(CoordPronunciation::parse("1.1/1.1.1/1.1.1").is_none());
    let p = CoordPronunciation::parse("1.2.3/4.5.6/7.8.9").unwrap();
    assert_eq!(p.library, SubCoord::new(1, 2, 3));
    assert_eq!(p.volume, SubCoord::new(4, 5, 6));
    assert_eq!(p.scroll, SubCoord::new(7, 8, 9));
}

#[test]
fn byte_syllables_follow_the_table() {
    let onsets = ["", "b", "p"];
    let vowels = ["a", "e", "i", "o", "u"];
    let codas = ["", "p", "t", "k", "b", "d", "g", "m", "n", "s", "f", "v", "l", "r", "ng", "sh", "zh"];
    assert_eq!(byte_to_syllable(0), "om");
    for v in 1..=255u8 {
        let w = (v - 1) as usize;
        let expected = format!("{}{}{}", onsets[w % 3], vowels[(w / 3) % 5], codas[w / 15]);
        assert_eq!(byte_to_syllable(v), expected);
    }
}
