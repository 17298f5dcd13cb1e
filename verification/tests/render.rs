use fantom::model::{ToneAddress, ToneType};
use fantom::container::Raw;
use fantom::diff::ByteRun;
use fantom::render::{note, pan, render_run, requirements, signed, Align, Table};
use fantom::requirements::{BankRequirement, Requirements, SlotRequirement, ToneRequirement};

/// A sample that is present, named, full-length and silent is the one failure every other
/// check passes.
#[test]
fn audio_that_is_silence_is_called_out_by_name() {
    let needs = Requirements {
        samples: vec![
            SlotRequirement {
                slot: 30,
                name: Some("Sledge 1".into()),
                carried: true,
                silent: true,
                played_by: vec!["Sledge + Hammer".into()],
            },
            SlotRequirement {
                slot: 55,
                name: Some("upiano1_55_a3".into()),
                carried: true,
                silent: false,
                played_by: Vec::new(),
            },
        ],
        ..Requirements::default()
    };
    let report = requirements(&needs);
    assert!(report.contains("no audio at all"), "{report}");
    assert!(report.contains("exported carried zeros"), "{report}");
    assert!(report.contains("slot  30  Sledge 1"), "{report}");
    assert!(!report.contains("upiano1_55_a3"), "{report}");
    // It still says what it carries; the warning is about quality, not presence.
    assert!(report.contains("carries the 2 user samples"), "{report}");
}

#[test]
fn a_file_that_needs_nothing_prints_nothing() {
    assert_eq!(requirements(&Requirements::default()), "");
}

/// A factory sound is a dependency nobody has to act on, so it gets a count and not a list.
#[test]
fn factory_sounds_are_counted_while_expansions_are_named() {
    let bank = |label: &str| BankRequirement {
        engine: ToneType::ZenCore,
        bank: Some(label.into()),
        tone: None,
        address: ToneAddress {
            msb: 87,
            lsb: 64,
            pc: 0,
        },
    };
    let needs = Requirements {
        banks: vec![bank("PR-A"), bank("PR-B"), bank("EXZ007")],
        ..Requirements::default()
    };
    let report = requirements(&needs);
    assert!(report.contains("ZEN-Core EXZ007 PC 000"));
    assert!(report.contains("also plays 2 factory sounds"));
    assert!(!report.contains("PR-A"));
}

/// Carried audio is not a requirement: an `.svz` brings its samples with it.
#[test]
fn only_what_the_file_cannot_supply_is_reported() {
    let needs = Requirements {
        samples: vec![
            SlotRequirement {
                slot: 1,
                name: Some("Beat It Gong".into()),
                carried: true,
                silent: false,
                played_by: vec!["Beat It".into()],
            },
            SlotRequirement {
                slot: 22,
                name: None,
                carried: false,
                silent: false,
                played_by: vec!["Beat It".into()],
            },
        ],
        ..Requirements::default()
    };
    let report = requirements(&needs);
    assert!(report.contains("1 user sample this file does not carry"));
    assert!(report.contains("slot  22  <not in this file>   (played by \"Beat It\")"));
    assert!(!report.contains("Beat It Gong"));
}

#[test]
fn a_missing_tone_and_an_expansion_are_both_named() {
    let needs = Requirements {
        user_tones: vec![ToneRequirement {
            area: "PATa".into(),
            index: 443,
            engine: ToneType::ZenCore,
            name: None,
            address: ToneAddress {
                msb: 87,
                lsb: 3,
                pc: 59,
            },
            present: false,
        }],
        banks: vec![BankRequirement {
            engine: ToneType::Exz,
            bank: Some("EXZ007".into()),
            tone: None,
            address: ToneAddress {
                msb: 93,
                lsb: 7,
                pc: 0,
            },
        }],
        wave_expansions: vec![1005],
        ..Requirements::default()
    };
    let report = requirements(&needs);
    assert!(report.contains("PATa[443]  MSB 87 LSB 3 PC 059"));
    assert!(report.contains("EXZ EXZ007 PC 000"));
    assert!(report.contains("wave expansion, group id 1005"));
}

#[test]
fn notes_follow_the_roland_octave_convention() {
    assert_eq!(note(60), "C4");
    assert_eq!(note(0), "C-1");
    assert_eq!(note(127), "G9");
}

#[test]
fn signed_offsets_always_print_a_number() {
    assert_eq!(signed(0), "0");
    assert_eq!(signed(-24), "-24");
    assert_eq!(signed(12), "+12");
}

#[test]
fn a_table_sizes_columns_to_the_widest_cell() {
    let mut t = Table::new(vec![("zone", Align::Right), ("tone", Align::Left)]);
    t.row(vec!["1".into(), "Africa Brass".into()]);
    t.row(vec!["16".into(), "Sax".into()]);
    assert_eq!(t.render(), "zone  tone\n   1  Africa Brass\n  16  Sax\n");
}

/// A short row must not panic or misalign the columns after it.
#[test]
fn a_short_row_is_padded() {
    let mut t = Table::new(vec![("a", Align::Left), ("b", Align::Left)]);
    t.row(vec!["x".into()]);
    assert_eq!(t.render(), "a  b\nx\n");
}

/// Every section of the report, in order, with exact text.
#[test]
fn a_full_report_reads_section_by_section() {
    let needs = Requirements {
        samples: vec![SlotRequirement {
            slot: 7,
            name: None,
            carried: false,
            silent: false,
            played_by: vec!["Pad".into(), "Lead".into()],
        }],
        multisamples: vec![
            SlotRequirement {
                slot: 3,
                name: Some("Kit".into()),
                carried: true,
                silent: false,
                played_by: Vec::new(),
            },
            SlotRequirement {
                slot: 4,
                name: Some("Strings".into()),
                carried: false,
                silent: false,
                played_by: Vec::new(),
            },
        ],
        unclassified: vec![ToneAddress {
            msb: 1,
            lsb: 2,
            pc: 3,
        }],
        ..Requirements::default()
    };
    let report = requirements(&needs);
    assert!(report.contains("           slot   7  <not in this file>   (played by \"Pad\", \"Lead\")\n"));
    assert!(report.contains("1 user multisample. The samples"));
    assert!(report.contains("           multisample   4  Strings"), "{report}");
    assert!(report.contains("        MSB 1 LSB 2 PC 003  (an address this version cannot classify)\n"));
    assert!(report.ends_with("note: carries the 1 multisample it plays.\n"), "{report}");
}

#[test]
fn plural_counts_one_without_an_s() {
    assert_eq!(fantom::render::plural(1), "");
    assert_eq!(fantom::render::plural(0), "s");
    assert_eq!(fantom::render::plural(2), "s");
}

fn run_at(offset: usize, file_offset: usize) -> ByteRun {
    ByteRun { offset, left_at: file_offset, right_at: file_offset, left: vec![b'S'], right: vec![b'X'] }
}

/// A scene rename changes the first byte of a record, so the run sits at record offset 0 with no
/// context available before it, while its file offset is far in.
#[test]
fn context_is_clamped_to_what_the_record_actually_has() {
    let raw = Raw::from_bytes(vec![b'.'; 4096]);
    for context in [1, 4, 12, 512] {
        let rendered = render_run("PRFa[0]", &run_at(0, 0x50), &raw, &raw, context);
        assert!(rendered.starts_with("PRFa[0]+0x0000"), "context {context} moved the reported offset: {rendered}");
    }
    // With room to spare, context still widens the window as intended.
    let rendered = render_run("DCWa[0]", &run_at(11, 0x100), &raw, &raw, 4);
    assert!(rendered.starts_with("DCWa[0]+0x0007"), "{rendered}");
}

#[test]
fn a_run_without_context_shows_just_its_bytes() {
    let raw = Raw::from_bytes(vec![b'.'; 16]);
    let rendered = render_run("PATa[2]", &run_at(0x1a, 0x1234), &raw, &raw, 0);
    assert_eq!(rendered, "PATa[2]+0x001a  @0x001234  53 -> 58  |S| -> |X|");
}

#[test]
fn context_reads_the_files_around_the_run() {
    let left = Raw::from_bytes(b"abcdefgh".to_vec());
    let right = Raw::from_bytes(b"abcdXfgh".to_vec());
    let run = ByteRun { offset: 4, left_at: 4, right_at: 4, left: vec![b'e'], right: vec![b'X'] };
    assert_eq!(
        render_run("SYSa[0]", &run, &left, &right, 2),
        "SYSa[0]+0x0002  @0x000004  63 64 65 66 67 -> 63 64 58 66 67  |cdefg| -> |cdXfg|"
    );
}

#[test]
fn pan_reads_left_centre_right() {
    assert_eq!(pan(-64), "L64");
    assert_eq!(pan(0), "C");
    assert_eq!(pan(63), "63R");
}
