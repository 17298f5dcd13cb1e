use std::collections::BTreeMap;

use fantom::container::{pat, Raw, RawZone, RecordTable, Svd, ZoneSettings};
use fantom::codec::read_scenes;
use fantom::container::pat::PatArea;
use fantom::model::ToneRef;
use fantom::repackage::{
    canary_scene, contiguous_remap, extract_scenes, merge_scenes, rebase_sample_slots,
    referenced_sample_slots, PANEL_SLOTS,
};

const SCENE_SIZE: usize = 3572;
const HEADER_LEN: usize = 0x10;
const NAME_LEN: usize = 16;
const PC_VALUES_PER_BANK: usize = 128;

fn tone_bank_offset(slot: usize) -> usize {
    ZoneSettings::TABLE_OFFSET + slot * ZoneSettings::LEN
}

fn scene(name: &str, tone_ids: &[usize]) -> Vec<u8> {
    let banks: Vec<_> = tone_ids
        .iter()
        .map(|index| (87, (index / PC_VALUES_PER_BANK) as u8, (index % PC_VALUES_PER_BANK) as u8))
        .collect();
    scene_with_banks(name, &banks)
}

fn scene_with_banks(name: &str, banks: &[(u8, u8, u8)]) -> Vec<u8> {
    let mut record = vec![0u8; SCENE_SIZE];
    record[..name.len()].copy_from_slice(name.as_bytes());
    for (slot, &(msb, lsb, pc)) in banks.iter().enumerate() {
        let marker = RawZone::TABLE_OFFSET + slot * RawZone::LEN + 0x3e;
        record[marker..marker + 2].copy_from_slice(&RawZone::marker());
        let at = tone_bank_offset(slot);
        record[at..at + 3].copy_from_slice(&[msb, lsb, pc]);
    }
    record
}

fn record_area(records: &[Vec<u8>], record_size: usize) -> Vec<u8> {
    let mut area = vec![0x55; HEADER_LEN];
    area[0..4].copy_from_slice(&(records.len() as u32).to_le_bytes());
    area[4..8].copy_from_slice(&(record_size as u32).to_le_bytes());
    for record in records {
        area.extend_from_slice(record);
    }
    area
}

fn build_svd(areas: &[(&[u8; 4], Vec<u8>)]) -> Raw {
    let header_size = 14 + areas.len() * 16;
    let mut bytes = Vec::new();
    bytes.extend_from_slice(&(header_size as u16).to_le_bytes());
    bytes.extend_from_slice(b"SVD5");
    bytes.extend_from_slice(&[0u8; 10]);
    let mut offset = 0x10 + areas.len() * 16;
    for (tag, body) in areas {
        bytes.extend_from_slice(*tag);
        bytes.extend_from_slice(b"KY19");
        bytes.extend_from_slice(&(offset as u32).to_le_bytes());
        bytes.extend_from_slice(&(body.len() as u32).to_le_bytes());
        offset += body.len();
    }
    for (_, body) in areas {
        bytes.extend_from_slice(body);
    }
    Raw::from_bytes(bytes)
}

fn system_area(bytes: &[u8]) -> Vec<u8> {
    record_area(&[bytes.to_vec()], bytes.len())
}

const SAMPLED_TONE_SIZE: usize = 0xdc + 4 * 124 + 8;

fn sampled_tone(name: &str, partials: &[(usize, u16)]) -> Vec<u8> {
    let mut record = vec![0u8; SAMPLED_TONE_SIZE];
    record[..NAME_LEN].fill(b' ');
    record[..name.len()].copy_from_slice(name.as_bytes());
    for &(partial, slot) in partials {
        let base = 0xdc + partial * 124;
        record[base + 3] = 2;
        record[base + 6..base + 8].copy_from_slice(&slot.to_le_bytes());
    }
    record
}

fn sampled_bank(tones: &[Vec<u8>]) -> Raw {
    build_svd(&[
        (b"PRFa", record_area(&[scene("One", &[0])], SCENE_SIZE)),
        (b"SYSa", system_area(&[0u8; 8])),
        (b"PATa", record_area(tones, SAMPLED_TONE_SIZE)),
    ])
}

#[test]
fn reports_the_sample_slots_the_bundled_tones_play() {
    let raw = sampled_bank(&[
        sampled_tone("Plain", &[]),
        sampled_tone("Two", &[(0, 29), (1, 7)]),
        sampled_tone("Dup", &[(0, 7)]),
    ]);
    assert_eq!(referenced_sample_slots(&raw).unwrap(), [7, 29]);
}

#[test]
fn rebasing_repoints_every_reference_onto_a_contiguous_run() {
    let raw = sampled_bank(&[sampled_tone("Plain", &[]), sampled_tone("Two", &[(0, 29), (1, 7)])]);
    let slots = referenced_sample_slots(&raw).unwrap();
    let remap = contiguous_remap(&slots, 101).unwrap();

    let rebased = rebase_sample_slots(&raw, &remap).unwrap();
    assert_eq!(referenced_sample_slots(&rebased).unwrap(), [101, 102]);

    let svd = Svd::parse(&rebased).unwrap();
    let table = RecordTable::from_svd(&rebased, &svd, b"PATa").unwrap().unwrap();
    assert_eq!(pat::sample_slots(table.record(1).unwrap()), [102, 101]);
}

#[test]
fn a_run_that_would_leave_the_panel_is_refused() {
    let zero = contiguous_remap(&[7, 29], 0).unwrap_err().message();
    assert!(zero.contains("numbered from 1"), "{zero}");

    let past = contiguous_remap(&[7, 29], PANEL_SLOTS).unwrap_err().message();
    assert!(past.contains("past the panel's"), "{past}");

    assert!(contiguous_remap(&[7, 29], PANEL_SLOTS - 1).is_ok());
    assert!(contiguous_remap(&[], PANEL_SLOTS).is_ok());
}

#[test]
fn rebasing_leaves_a_bank_without_samples_untouched() {
    let raw = sampled_bank(&[sampled_tone("Plain", &[])]);
    let rebased = rebase_sample_slots(&raw, &contiguous_remap(&[], 101).unwrap()).unwrap();
    assert_eq!(rebased.bytes(), raw.bytes());
}

#[test]
fn rebasing_refuses_a_tone_bank() {
    let raw = Raw::from_bytes({
        let mut b = b"SVZa".to_vec();
        b.push(0);
        b.push(3);
        b.extend_from_slice(b"KY019$");
        b.extend_from_slice(&[0u8; 4]);
        b
    });
    let error = rebase_sample_slots(&raw, &BTreeMap::new()).unwrap_err().message();
    assert!(error.contains("position within its own USPa"), "{error}");
}

#[test]
fn a_remap_numbers_slots_in_the_order_given() {
    let remap = contiguous_remap(&[29, 7], 5).unwrap();
    assert_eq!(remap, BTreeMap::from([(29, 5), (7, 6)]));
}

const TONE_SIZE: usize = 32;

fn tone(name: &str, fill: u8) -> Vec<u8> {
    let mut record = vec![fill; TONE_SIZE];
    record[..NAME_LEN].fill(b' ');
    record[..name.len()].copy_from_slice(name.as_bytes());
    record
}

fn bank(scenes: Vec<Vec<u8>>, tones: Vec<Vec<u8>>, system: &[u8]) -> Raw {
    build_svd(&[
        (b"PRFa", record_area(&scenes, SCENE_SIZE)),
        (b"SYSa", system_area(system)),
        (b"PATa", record_area(&tones, TONE_SIZE)),
    ])
}

fn area_bytes(raw: &Raw, tag: &[u8; 4]) -> Vec<u8> {
    let svd = Svd::parse(raw).unwrap();
    svd.area_bytes(raw, svd.area(tag).unwrap()).unwrap().to_vec()
}

fn count_of(area: &[u8]) -> u32 {
    u32::from_le_bytes([area[0], area[1], area[2], area[3]])
}

#[test]
fn extract_keeps_selected_scenes_and_rebundles_their_tones() {
    let raw = bank(
        vec![scene("First", &[0]), scene("Second", &[1, 2])],
        vec![tone("Tone A", 0xa1), tone("Tone B", 0xb2), tone("Tone C", 0xc3)],
        b"opaque system bytes",
    );

    let extracted = extract_scenes(&raw, &[2]).unwrap();
    let scenes = read_scenes(&extracted).unwrap();
    assert_eq!(scenes.len(), 1);
    assert_eq!(scenes[0].name, "Second");
    assert_eq!(scenes[0].zones[0].tone, ToneRef::new(87, 0, 0, Some("Tone B".into())));
    assert_eq!(scenes[0].zones[1].tone, ToneRef::new(87, 0, 1, Some("Tone C".into())));

    let pat = PatArea::from_svd(&extracted, &Svd::parse(&extracted).unwrap()).unwrap();
    let names: Vec<_> = pat.tones().iter().map(|tone| tone.name.as_str()).collect();
    assert_eq!(names, ["Tone B", "Tone C"]);
    assert_eq!(area_bytes(&extracted, b"SYSa"), system_area(b"opaque system bytes"));
}

#[test]
fn merge_appends_scenes_and_deduplicates_identical_tone_records() {
    let shared = tone("Shared", 0x44);
    let target = bank(vec![scene("Target", &[0])], vec![shared.clone()], b"target system");
    let source = bank(
        vec![scene("Source", &[0, 1])],
        vec![tone("Other", 0x22), shared],
        b"source system",
    );

    let merged = merge_scenes(&target, &source).unwrap();
    let scenes = read_scenes(&merged).unwrap();
    assert_eq!(
        scenes.iter().map(|scene| scene.name.as_str()).collect::<Vec<_>>(),
        ["Target", "Source"]
    );
    assert_eq!(scenes[0].zones[0].tone, ToneRef::new(87, 0, 0, Some("Shared".into())));
    assert_eq!(scenes[1].zones[0].tone, ToneRef::new(87, 0, 1, Some("Other".into())));
    assert_eq!(scenes[1].zones[1].tone, ToneRef::new(87, 0, 0, Some("Shared".into())));

    let pat = PatArea::from_svd(&merged, &Svd::parse(&merged).unwrap()).unwrap();
    assert_eq!(pat.tones().len(), 2);
    assert_eq!(area_bytes(&merged, b"SYSa"), system_area(b"target system"));
}

#[test]
fn canary_marks_scene_and_tone_names_without_changing_tone_payloads() {
    let raw = bank(
        vec![scene("First", &[0]), scene("Sledgehammer", &[1, 2])],
        vec![
            tone("Unused", 0xa1),
            tone("Sledgehammer Sha", 0xb2),
            tone("Sledge Brass 1", 0xc3),
        ],
        b"opaque system bytes",
    );
    let extracted = extract_scenes(&raw, &[2]).unwrap();
    let canary = canary_scene(&raw, 2).unwrap();

    let scenes = read_scenes(&canary).unwrap();
    assert_eq!(scenes[0].name, "CNY Sledgehammer");
    assert_eq!(scenes[0].zones[0].tone.name(), Some("CNY01 Sledgehamm"));
    assert_eq!(scenes[0].zones[1].tone.name(), Some("CNY02 Sledge Bra"));

    let extracted_pat = area_bytes(&extracted, b"PATa");
    let canary_pat = area_bytes(&canary, b"PATa");
    for index in 0..2 {
        let start = HEADER_LEN + index * TONE_SIZE;
        assert_eq!(
            &canary_pat[start + NAME_LEN..start + TONE_SIZE],
            &extracted_pat[start + NAME_LEN..start + TONE_SIZE]
        );
    }
    assert_eq!(area_bytes(&canary, b"SYSa"), system_area(b"opaque system bytes"));
}

#[test]
fn rejects_a_reference_past_the_end_of_its_area() {
    let raw = bank(vec![scene("Broken", &[0, 1])], vec![tone("Only one", 0x11)], b"");
    let error = extract_scenes(&raw, &[1]).unwrap_err().message();
    assert!(
        error.contains("PATa record 1") && error.contains("0..0"),
        "unexpected error: {error}"
    );
}

/// A full backup carries the whole user bank, so almost every record is unreferenced; only the
/// referenced ones travel.
#[test]
fn extracts_from_a_bank_whose_tones_are_mostly_unreferenced() {
    let tones: Vec<_> = (0..200).map(|index| tone(&format!("Tone {index}"), index as u8)).collect();
    let raw = bank(vec![scene("First", &[0]), scene("Second", &[7, 150])], tones, b"system");

    let extracted = extract_scenes(&raw, &[2]).unwrap();
    let scenes = read_scenes(&extracted).unwrap();
    assert_eq!(scenes.len(), 1);
    assert_eq!(scenes[0].zones[0].tone.name(), Some("Tone 7"));
    assert_eq!(scenes[0].zones[1].tone.name(), Some("Tone 150"));

    let pat = PatArea::from_svd(&extracted, &Svd::parse(&extracted).unwrap()).unwrap();
    assert_eq!(pat.tones().len(), 2);
    assert_eq!(scenes[0].zones[0].tone.address.pc, 0);
    assert_eq!(scenes[0].zones[1].tone.address.pc, 1);
}

#[test]
fn opaque_engine_references_are_rebased_across_lsb_pages() {
    let tones: Vec<_> = (0..200).map(|index| tone(&format!("Model {index}"), index as u8)).collect();
    let raw = build_svd(&[
        (
            b"PRFa",
            record_area(&[scene_with_banks("Modelled", &[(97, 1, 22), (97, 0, 5)])], SCENE_SIZE),
        ),
        (b"MDLa", record_area(&tones, TONE_SIZE)),
    ]);

    let extracted = extract_scenes(&raw, &[1]).unwrap();
    assert_eq!(count_of(&area_bytes(&extracted, b"MDLa")), 2);
    let prfa = area_bytes(&extracted, b"PRFa");
    let banks: Vec<_> = (0..2)
        .map(|slot| {
            let at = HEADER_LEN + tone_bank_offset(slot);
            prfa[at..at + 3].to_vec()
        })
        .collect();
    assert_eq!(banks, [vec![97, 0, 0], vec![97, 0, 1]]);
}

#[test]
fn merge_adds_source_only_engine_areas_and_rewrites_each_family() {
    let target = bank(vec![scene("Target", &[0])], vec![tone("Target Tone", 0x11)], b"target system");
    let source_scene = scene_with_banks("Source", &[(87, 0, 0), (89, 0, 0), (105, 1, 0)]);
    let source = build_svd(&[
        (b"PRFa", record_area(&[source_scene], SCENE_SIZE)),
        (b"PATa", record_area(&[tone("Source Tone", 0x22)], TONE_SIZE)),
        (b"SNAa", record_area(&[tone("Source SNA", 0x33)], TONE_SIZE)),
        (b"ZEPa", record_area(&[tone("Source ZEP", 0x44)], TONE_SIZE)),
        (b"SYSa", system_area(b"source system")),
    ]);

    let merged = merge_scenes(&target, &source).unwrap();
    let svd = Svd::parse(&merged).unwrap();
    assert!(svd.area(b"SNAa").is_some());
    assert!(svd.area(b"ZEPa").is_some());
    assert_eq!(area_bytes(&merged, b"SYSa"), system_area(b"target system"));

    let scenes = read_scenes(&merged).unwrap();
    assert_eq!(scenes[1].zones[0].tone.name(), Some("Source Tone"));
    let prfa = area_bytes(&merged, b"PRFa");
    let source_record = &prfa[HEADER_LEN + SCENE_SIZE..];
    let banks: Vec<_> = (0..3)
        .map(|slot| {
            let at = tone_bank_offset(slot);
            &source_record[at..at + 3]
        })
        .collect();
    assert_eq!(banks, [&[87, 0, 1][..], &[89, 0, 0], &[105, 1, 0]]);
}

#[test]
fn merge_preserves_identical_opaque_dependency_areas() {
    let target = build_svd(&[
        (b"PRFa", record_area(&[scene_with_banks("Target", &[(107, 0, 0)])], SCENE_SIZE)),
        (b"ACBa", record_area(&[tone("A", 0x11)], TONE_SIZE)),
    ]);
    let source = build_svd(&[
        (b"PRFa", record_area(&[scene_with_banks("Source", &[(107, 0, 0)])], SCENE_SIZE)),
        (b"ACBa", record_area(&[tone("A", 0x11)], TONE_SIZE)),
    ]);

    let merged = merge_scenes(&target, &source).unwrap();
    assert_eq!(area_bytes(&merged, b"ACBa")[..4], [1, 0, 0, 0]);
    assert_eq!(read_scenes(&merged).unwrap().len(), 2);
}

#[test]
fn merge_rebases_different_opaque_dependency_records() {
    let target = build_svd(&[
        (b"PRFa", record_area(&[scene_with_banks("Target", &[(107, 0, 0)])], SCENE_SIZE)),
        (b"ACBa", record_area(&[tone("A", 0x11)], TONE_SIZE)),
    ]);
    let source = build_svd(&[
        (b"PRFa", record_area(&[scene_with_banks("Source", &[(107, 0, 0)])], SCENE_SIZE)),
        (b"ACBa", record_area(&[tone("B", 0x44)], TONE_SIZE)),
    ]);

    let merged = merge_scenes(&target, &source).unwrap();
    assert_eq!(count_of(&area_bytes(&merged, b"ACBa")), 2);
    let scenes = read_scenes(&merged).unwrap();
    assert_eq!(scenes[0].zones[0].tone.address.pc, 0);
    assert_eq!(scenes[1].zones[0].tone.address.pc, 1);
}

#[test]
fn merge_copies_source_only_opaque_dependency_areas() {
    let target = build_svd(&[
        (b"PRFa", record_area(&[scene_with_banks("Target", &[(87, 0, 0)])], SCENE_SIZE)),
        (b"PATa", record_area(&[tone("Target", 0x11)], TONE_SIZE)),
    ]);
    let source = build_svd(&[
        (b"PRFa", record_area(&[scene_with_banks("Source", &[(107, 0, 0)])], SCENE_SIZE)),
        (b"ACBa", record_area(&[tone("A", 0x44)], TONE_SIZE)),
    ]);

    let merged = merge_scenes(&target, &source).unwrap();
    assert_eq!(count_of(&area_bytes(&merged, b"ACBa")), 1);
}

#[test]
fn rhythm_dependencies_keep_rhya_and_insa_records_paired() {
    let raw = build_svd(&[
        (b"PRFa", record_area(&[scene_with_banks("Drums", &[(86, 0, 0)])], SCENE_SIZE)),
        (b"RHYa", record_area(&[tone("User Kit", 0x55)], TONE_SIZE)),
        (b"INSa", record_area(&[tone("Kit Instruments", 0x66)], TONE_SIZE)),
        (b"SYSa", system_area(b"system")),
    ]);

    let extracted = extract_scenes(&raw, &[1]).unwrap();
    assert_eq!(
        &area_bytes(&extracted, b"RHYa")[HEADER_LEN..HEADER_LEN + NAME_LEN],
        &tone("User Kit", 0x55)[..NAME_LEN]
    );
    assert_eq!(
        &area_bytes(&extracted, b"INSa")[HEADER_LEN..HEADER_LEN + NAME_LEN],
        &tone("Kit Instruments", 0x66)[..NAME_LEN]
    );
}

#[test]
fn zen_core_indices_roll_to_the_next_lsb_after_128_records() {
    let scenes: Vec<_> = (0..130)
        .collect::<Vec<_>>()
        .chunks(16)
        .enumerate()
        .map(|(number, ids)| scene(&format!("Scene {number}"), ids))
        .collect();
    let tones: Vec<_> = (0..130).map(|index| tone(&format!("Tone {index}"), index as u8)).collect();
    let raw = bank(scenes, tones, b"system");
    let scene_numbers: Vec<_> = (1..=9).collect();

    let extracted = extract_scenes(&raw, &scene_numbers).unwrap();
    let prfa = area_bytes(&extracted, b"PRFa");
    let ninth_scene = &prfa[HEADER_LEN + 8 * SCENE_SIZE..];
    let at = tone_bank_offset(0);
    assert_eq!(&ninth_scene[at..at + 3], &[87, 1, 0]);
    assert_eq!(read_scenes(&extracted).unwrap()[8].zones[0].tone.name(), Some("Tone 128"));
}

#[test]
fn extracting_no_scenes_is_refused() {
    let raw = bank(vec![scene("First", &[0])], vec![tone("Tone", 0x11)], b"system");
    assert_eq!(extract_scenes(&raw, &[]).unwrap_err(), fantom::Error::NoScenes);
    assert_eq!(
        extract_scenes(&raw, &[2]).unwrap_err(),
        fantom::Error::SceneOutOfRange { scene: 2, count: 1 }
    );
    assert_eq!(
        extract_scenes(&raw, &[0]).unwrap_err(),
        fantom::Error::SceneOutOfRange { scene: 0, count: 1 }
    );
}

#[test]
fn merging_banks_whose_scenes_differ_in_size_is_refused() {
    let target = bank(vec![scene("Target", &[0])], vec![tone("Tone", 0x11)], b"system");
    let mut short = scene("Short", &[]);
    short.truncate(SCENE_SIZE - 4);
    let source = build_svd(&[(b"PRFa", record_area(&[short], SCENE_SIZE - 4))]);
    assert_eq!(
        merge_scenes(&target, &source).unwrap_err(),
        fantom::Error::SceneSizesDiffer { target: SCENE_SIZE, source: SCENE_SIZE - 4 }
    );
}

#[test]
fn a_scene_playing_a_missing_engine_area_is_refused() {
    let raw = build_svd(&[(b"PRFa", record_area(&[scene_with_banks("Lost", &[(89, 0, 0)])], SCENE_SIZE))]);
    let error = extract_scenes(&raw, &[1]).unwrap_err();
    assert_eq!(error, fantom::Error::DependencyMissing { tag: *b"SNAa" });
    assert_eq!(error.message(), "unrecognized structure: scene references missing SNAa area");
}

#[test]
fn an_unknown_area_cannot_be_carried_into_a_rebuilt_bank() {
    let raw = build_svd(&[
        (b"PRFa", record_area(&[scene("One", &[])], SCENE_SIZE)),
        (b"XYZa", system_area(b"mystery")),
    ]);
    assert_eq!(extract_scenes(&raw, &[1]).unwrap_err(), fantom::Error::UnknownArea { tag: *b"XYZa" });
}

#[test]
fn rebasing_rewrites_tone_references_and_leaves_drum_kit_instruments_alone() {
    let mut instrument = vec![0u8; 216];
    instrument[0x1c + 1] = 2;
    instrument[0x1c + 4..0x1c + 6].copy_from_slice(&7u16.to_le_bytes());
    let raw = build_svd(&[
        (b"PRFa", record_area(&[scene("One", &[0])], SCENE_SIZE)),
        (b"SYSa", system_area(&[0u8; 8])),
        (b"PATa", record_area(&[sampled_tone("Two", &[(0, 7)])], SAMPLED_TONE_SIZE)),
        (b"INSa", record_area(&[instrument.clone()], 216)),
    ]);
    assert_eq!(referenced_sample_slots(&raw).unwrap(), [7]);
    let rebased = rebase_sample_slots(&raw, &BTreeMap::from([(7, 101)])).unwrap();
    assert_eq!(area_bytes(&rebased, b"INSa"), area_bytes(&raw, b"INSa"));
    assert_ne!(area_bytes(&rebased, b"PATa"), area_bytes(&raw, b"PATa"));
    assert_eq!(referenced_sample_slots(&rebased).unwrap(), [7, 101]);
}
