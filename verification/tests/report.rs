use fantom::container::Raw;
use fantom::library::{file_entry, problems_json, tidy, FileStatus};
use fantom::model::{Scene, ToneRef, Zone};
use fantom::report::{check_report, diff_report, scene_report};
use fantom::Error;

/// An area to build: tag, record size, and its records.
type AreaDef<'a> = (&'a [u8; 4], usize, Vec<Vec<u8>>);

fn svd(areas: &[AreaDef<'_>]) -> Raw {
    let header_len = 14 + areas.len() * 16;
    let mut table = Vec::new();
    let mut bodies = Vec::new();
    let mut at = 0x10 + areas.len() * 16;
    for (tag, record_size, records) in areas {
        let mut body = Vec::new();
        body.extend_from_slice(&(records.len() as u32).to_le_bytes());
        body.extend_from_slice(&(*record_size as u32).to_le_bytes());
        body.extend_from_slice(&16u32.to_le_bytes());
        body.extend_from_slice(&[0u8; 4]);
        for record in records {
            let mut r = record.clone();
            r.resize(*record_size, 0);
            body.extend_from_slice(&r);
        }
        table.extend_from_slice(*tag);
        table.extend_from_slice(b"KY19");
        table.extend_from_slice(&(at as u32).to_le_bytes());
        table.extend_from_slice(&(body.len() as u32).to_le_bytes());
        at += body.len();
        bodies.extend_from_slice(&body);
    }
    let mut b = Vec::new();
    b.extend_from_slice(&(header_len as u16).to_le_bytes());
    b.extend_from_slice(b"SVD5");
    b.extend_from_slice(&[0u8; 10]);
    b.extend_from_slice(&table);
    b.extend_from_slice(&bodies);
    Raw::from_bytes(b)
}

fn named(name: &str) -> Vec<u8> {
    let mut r = vec![b' '; 32];
    r[..name.len()].copy_from_slice(name.as_bytes());
    r
}

#[test]
fn identical_files_report_no_differences() {
    let a = svd(&[(b"DCWa", 32, vec![named("Stage Grand3")])]);
    let report = diff_report(&a, &a, "a.svd", "b.svd", &[], 0).unwrap();
    assert_eq!(report, "left:  a.svd (80 bytes)\nright: b.svd (80 bytes)\n\nno differences\n");
}

#[test]
fn a_changed_byte_is_one_finding_and_one_changed_byte() {
    let a = svd(&[(b"DCWa", 32, vec![named("Stage Grand3")])]);
    let b = svd(&[(b"DCWa", 32, vec![named("Stage Grand4")])]);
    let report = diff_report(&a, &b, "a.svd", "b.svd", &[], 0).unwrap();
    assert!(report.starts_with("left:  a.svd (80 bytes)\nright: b.svd (80 bytes)\n\nDCWa[0]+0x000b"), "{report}");
    assert!(report.contains("|3| -> |4|\n"), "{report}");
    assert!(report.ends_with("\n\n1 finding, 1 changed byte\n"), "{report}");
}

#[test]
fn asking_for_other_areas_hides_the_finding() {
    let a = svd(&[(b"DCWa", 32, vec![named("Stage Grand3")])]);
    let b = svd(&[(b"DCWa", 32, vec![named("Stage Grand4")])]);
    let report = diff_report(&a, &b, "a", "b", &["PATa".to_string()], 0).unwrap();
    assert!(report.ends_with("\n\nno differences\n"), "{report}");
    let kept = diff_report(&a, &b, "a", "b", &["DCWa".to_string()], 0).unwrap();
    assert!(kept.ends_with("1 finding, 1 changed byte\n"), "{kept}");
}

#[test]
fn a_context_past_the_address_space_is_refused() {
    let a = svd(&[(b"DCWa", 32, vec![named("Stage Grand3")])]);
    let b = svd(&[(b"DCWa", 32, vec![named("Stage Grand4")])]);
    let error = diff_report(&a, &b, "a", "b", &[], usize::MAX).unwrap_err();
    assert_eq!(error, Error::ContextTooWide { context: usize::MAX });
    assert_eq!(
        error.message(),
        format!("--context {} reaches past the end of the address space", usize::MAX)
    );
}

#[test]
fn a_file_needing_nothing_says_so_and_passes_the_gate() {
    let a = svd(&[(b"DCWa", 32, vec![named("Stage Grand3")])]);
    let (report, failed) = check_report("a.svd", &a, None).unwrap();
    assert!(!failed);
    assert_eq!(report, "file:  a.svd (unknown)\nplays: VPiano\n\nneeds nothing from its destination\n");

    let (against, failed) = check_report("a.svd", &a, Some(("b.svd", &a))).unwrap();
    assert!(!failed);
    assert!(against.contains("\nagainst: b.svd ("), "{against}");
    assert!(
        against.ends_with("everything this file needs, that one has — as far as a file can say\n"),
        "{against}"
    );
}

#[test]
fn checking_something_that_is_not_a_container_fails() {
    let junk = Raw::from_bytes(vec![0u8; 8]);
    assert!(check_report("junk", &junk, None).is_err());
    let a = svd(&[(b"DCWa", 32, vec![named("Stage Grand3")])]);
    assert!(check_report("a", &a, Some(("junk", &junk))).is_err());
}

fn zone(number: u8, enabled: bool, arpeggio: bool) -> Zone {
    Zone {
        number,
        enabled,
        muted: false,
        tone: ToneRef::new(87, 0, 4, Some("Grand".to_string())),
        key_low: 0,
        key_high: 127,
        velocity_low: 1,
        velocity_high: 127,
        level: 100,
        pan: -10,
        transpose: 2,
        octave: 0,
        midi_channel: 0,
        arpeggio,
    }
}

#[test]
fn a_scene_report_shows_tempo_to_the_hundredth_and_its_zones() {
    let scene = Scene {
        name: "Piano".to_string(),
        comment: "warm".to_string(),
        tempo: 12050,
        level: 100,
        zones: vec![zone(0, true, false), zone(1, false, true), zone(2, true, true)],
        groups: vec![],
    };
    let report = scene_report(&scene, 3, false);
    let lines: Vec<&str> = report.lines().collect();
    assert_eq!(lines[0], "Scene 3: Piano   120.50 BPM   level 100");
    assert_eq!(lines[1], "note: warm");
    assert!(lines[2].starts_with("zone  on"), "{report}");
    assert_eq!(lines.len(), 6, "{report}");
    assert!(lines[3].starts_with("   1  on"), "{report}");
    assert!(lines[3].contains("L10"), "{report}");
    assert!(lines[3].contains("+2"), "{report}");
    assert!(lines[4].starts_with("   3  on"), "{report}");
    assert_eq!(lines[5], "arpeggio: zone 3");

    let every = scene_report(&scene, 3, true);
    assert!(every.contains("\n   2  off"), "{every}");
    assert!(every.ends_with("arpeggio: zone 2, 3\n"), "{every}");
}

#[test]
fn a_whole_beat_tempo_keeps_two_decimals() {
    let scene = Scene {
        name: "X".to_string(),
        comment: String::new(),
        tempo: 9005,
        level: 0,
        zones: vec![],
        groups: vec![],
    };
    assert!(scene_report(&scene, 1, false).starts_with("Scene 1: X   90.05 BPM   level 0\nzone"));
}

#[test]
fn repeated_warnings_collapse_and_a_long_list_is_capped() {
    let w = tidy(vec!["a".to_string(), "b".to_string(), "a".to_string()]);
    assert_eq!(w, vec!["a".to_string(), "b".to_string()]);
    let many: Vec<String> = (0..45).map(|i| format!("w{i}")).collect();
    let w = tidy(many);
    assert_eq!(w.len(), 41);
    assert_eq!(w[39], "w39");
    assert_eq!(w[40], "… and 5 more");
}

#[test]
fn problems_are_stored_as_a_json_array() {
    assert_eq!(problems_json(&vec![]), "[]");
    let v = vec!["say \"hi\"".to_string(), "a\\b\n\u{1}".to_string(), "é".to_string()];
    assert_eq!(problems_json(&v), "[\"say \\\"hi\\\"\",\"a\\\\b\\n\\u0001\",\"é\"]");
}

#[test]
fn a_clean_file_is_catalogued_and_junk_is_invalid() {
    let a = svd(&[(b"DCWa", 32, vec![named("Stage Grand3")])]);
    let (status, problems, json) = file_entry(&a);
    assert_eq!(status, FileStatus::Valid);
    assert!(problems.is_empty());
    assert_eq!(json, "[]");

    let junk = Raw::from_bytes(vec![0u8; 8]);
    let (status, problems, json) = file_entry(&junk);
    assert_eq!(status, FileStatus::Invalid);
    assert_eq!(problems.len(), 1);
    assert!(problems[0].starts_with("unrecognized structure: "), "{problems:?}");
    assert_eq!(json, format!("[\"{}\"]", problems[0]));
}

#[test]
fn a_file_offers_its_named_tones_and_skips_unused_slots() {
    let a = svd(&[(b"PATa", 32, vec![named("Lead"), named("INITIAL TONE"), named("Pad")])]);
    let candidates = fantom::library::tone_candidates(&a).unwrap();
    assert_eq!(candidates.len(), 2);
    assert_eq!(candidates[0].name, "Lead");
    assert_eq!(candidates[0].detail.area, "PATa");
    assert_eq!(candidates[0].detail.index, 0);
    assert_eq!(candidates[0].kind, fantom::library::AssetKind::Tone);
    assert_eq!(candidates[0].identity, fantom::library::identity_hash("tone", b"PATa", &named("Lead")));
    assert_eq!(candidates[0].engine, candidates[0].detail.engine);
    assert!(candidates[0].memo.is_empty());
    assert_eq!(candidates[1].name, "Pad");
    assert_eq!(candidates[1].detail.index, 2);
    assert_ne!(candidates[0].identity, candidates[1].identity);

    let junk = Raw::from_bytes(vec![0u8; 8]);
    assert!(fantom::library::tone_candidates(&junk).is_err());
}
