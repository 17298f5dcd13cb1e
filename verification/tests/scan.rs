use fantom::container::{Raw, RawZone, ZoneSettings};
use fantom::model::{ToneAddress, ToneType};
use fantom::requirements::{inventory, requirements, scene_requirements, tone_requirements, Reader};
use fantom::role::Role;
use fantom::Error;

const SCENE_SIZE: usize = 3572;
const HEADER_LEN: usize = 0x10;
const NAME_LEN: usize = 16;
const SAMPLED_TONE_SIZE: usize = 0xdc + 4 * 124 + 8;

fn scene_with_banks(name: &str, banks: &[(u8, u8, u8)]) -> Vec<u8> {
    let mut record = vec![0u8; SCENE_SIZE];
    record[..name.len()].copy_from_slice(name.as_bytes());
    for (slot, &(msb, lsb, pc)) in banks.iter().enumerate() {
        let marker = RawZone::TABLE_OFFSET + slot * RawZone::LEN + 0x3e;
        record[marker..marker + 2].copy_from_slice(&RawZone::marker());
        let at = ZoneSettings::TABLE_OFFSET + slot * ZoneSettings::LEN;
        record[at..at + 3].copy_from_slice(&[msb, lsb, pc]);
    }
    record
}

fn record_area(records: &[Vec<u8>], record_size: usize) -> Vec<u8> {
    let mut area = vec![0x55; HEADER_LEN];
    area[0..4].copy_from_slice(&(records.len() as u32).to_le_bytes());
    area[4..8].copy_from_slice(&(record_size as u32).to_le_bytes());
    for record in records {
        area.extend_from_slice(record);
    }
    area
}

fn build_svd(areas: &[(&[u8; 4], Vec<u8>)]) -> Raw {
    let header_size = 14 + areas.len() * 16;
    let mut bytes = Vec::new();
    bytes.extend_from_slice(&(header_size as u16).to_le_bytes());
    bytes.extend_from_slice(b"SVD5");
    bytes.extend_from_slice(&[0u8; 10]);
    let mut offset = 0x10 + areas.len() * 16;
    for (tag, body) in areas {
        bytes.extend_from_slice(*tag);
        bytes.extend_from_slice(b"KY19");
        bytes.extend_from_slice(&(offset as u32).to_le_bytes());
        bytes.extend_from_slice(&(body.len() as u32).to_le_bytes());
        offset += body.len();
    }
    for (_, body) in areas {
        bytes.extend_from_slice(body);
    }
    Raw::from_bytes(bytes)
}

fn sampled_tone(name: &str, partials: &[(usize, u16)]) -> Vec<u8> {
    let mut record = vec![0u8; SAMPLED_TONE_SIZE];
    record[..NAME_LEN].fill(b' ');
    record[..name.len()].copy_from_slice(name.as_bytes());
    for &(partial, slot) in partials {
        let base = 0xdc + partial * 124;
        record[base + 3] = 2;
        record[base + 6..base + 8].copy_from_slice(&slot.to_le_bytes());
    }
    record
}

/// One scene: a user tone that plays slots 3 and 1, the same tone again, an empty user slot, a
/// factory drum kit, and an address no engine claims. The bank bundles a second tone of its own.
fn bank() -> Raw {
    let scene = scene_with_banks(
        "One",
        &[(87, 0, 0), (87, 0, 0), (87, 0, 2), (86, 64, 3), (0, 0, 9)],
    );
    build_svd(&[
        (b"PRFa", record_area(&[scene], SCENE_SIZE)),
        (b"SYSa", record_area(&[vec![0u8; 8]], 8)),
        (
            b"PATa",
            record_area(
                &[
                    sampled_tone("Lead", &[(0, 3), (1, 1)]),
                    sampled_tone("Pad", &[(2, 2), (3, 3)]),
                    sampled_tone("INITIAL TONE", &[(0, 7)]),
                ],
                SAMPLED_TONE_SIZE,
            ),
        ),
    ])
}

fn slots(needs: &fantom::requirements::Requirements) -> Vec<(u16, Vec<String>)> {
    needs.samples.iter().map(|s| (s.slot, s.played_by.clone())).collect()
}

#[test]
fn a_scene_needs_its_user_tone_the_samples_it_plays_and_the_banks_it_points_at() {
    let needs = scene_requirements(&bank(), 1).unwrap();
    assert_eq!(needs.engines, [ToneType::ZenCore, ToneType::Drum, ToneType::Unknown]);

    assert_eq!(needs.user_tones.len(), 2, "one entry per record, however many zones play it");
    assert_eq!(needs.user_tones[0].area, "PATa");
    assert_eq!(needs.user_tones[0].index, 0);
    assert_eq!(needs.user_tones[0].name.as_deref(), Some("Lead"));
    assert!(needs.user_tones[0].present);
    // An `INITIAL` record is an empty slot: a missing dependency, not a present one.
    assert_eq!(needs.user_tones[1].index, 2);
    assert_eq!(needs.user_tones[1].name, None);
    assert!(!needs.user_tones[1].present);

    // Slots come out by number, each with the tones that play it.
    assert_eq!(slots(&needs), [(1, vec!["Lead".to_string()]), (3, vec!["Lead".to_string()])]);
    assert!(needs.samples.iter().all(|s| !s.carried && s.name.is_none() && !s.silent));

    assert_eq!(needs.banks.len(), 1);
    assert_eq!(needs.banks[0].engine, ToneType::Drum);
    assert_eq!(needs.banks[0].bank.as_deref(), Some("PR-A"));
    assert_eq!(needs.banks[0].address, ToneAddress { msb: 86, lsb: 64, pc: 3 });
    assert_eq!(needs.unclassified, [ToneAddress { msb: 0, lsb: 0, pc: 9 }]);
    assert!(!needs.carries_audio);
    assert!(needs.multisamples.is_empty() && needs.wave_expansions.is_empty());
}

#[test]
fn a_scene_number_past_the_bank_is_refused() {
    assert_eq!(scene_requirements(&bank(), 0).unwrap_err(), Error::SceneOutOfRange { scene: 0, count: 1 });
    assert_eq!(scene_requirements(&bank(), 2).unwrap_err(), Error::SceneOutOfRange { scene: 2, count: 1 });
}

#[test]
fn a_whole_file_needs_every_record_it_bundles_too() {
    let needs = requirements(&bank()).unwrap();
    assert_eq!(needs.engines, [ToneType::ZenCore, ToneType::Drum, ToneType::Unknown]);
    assert_eq!(
        slots(&needs),
        [
            (1, vec!["Lead".to_string()]),
            (2, vec!["Pad".to_string()]),
            (3, vec!["Lead".to_string(), "Pad".to_string()]),
        ]
    );
    // The placeholder record bundled in the file plays slot 7, and is not followed.
    assert!(needs.samples.iter().all(|s| s.slot != 7));
}

#[test]
fn one_record_needs_what_its_partials_play() {
    let needs = tone_requirements(&bank(), b"PATa", 1).unwrap();
    assert_eq!(needs.engines, [ToneType::ZenCore]);
    assert!(needs.user_tones.is_empty());
    assert_eq!(slots(&needs), [(2, vec!["Pad".to_string()]), (3, vec!["Pad".to_string()])]);

    // Past the end of the area there is no record to follow.
    let nothing = tone_requirements(&bank(), b"PATa", 9).unwrap();
    assert!(nothing.samples.is_empty());
    assert_eq!(nothing.engines, [ToneType::ZenCore]);
}

#[test]
fn an_area_that_holds_no_user_tones_is_refused() {
    let error = tone_requirements(&bank(), b"PRFa", 0).unwrap_err();
    assert_eq!(error, Error::NotAToneArea { tag: *b"PRFa" });
    assert!(error.message().ends_with("PRFa is not a user tone area"), "{}", error.message());
}

#[test]
fn a_reader_answers_the_same_as_the_one_shot_functions() {
    let raw = bank();
    let reader = Reader::open(&raw).unwrap();
    assert_eq!(reader.file().unwrap(), requirements(&raw).unwrap());
    assert_eq!(reader.tone(b"PATa", 0).unwrap(), tone_requirements(&raw, b"PATa", 0).unwrap());
}

#[test]
fn a_scene_bank_holds_no_samples_of_its_own() {
    let held = inventory(&bank()).unwrap();
    assert_eq!(held.role, Role::SceneBank);
    assert!(held.samples.is_empty() && held.multisamples.is_empty());
    assert!(!held.knows_samples());
}

#[test]
fn a_file_that_is_not_a_container_is_refused() {
    assert!(requirements(&Raw::from_bytes(b"nothing to see".to_vec())).is_err());
    assert!(inventory(&Raw::from_bytes(Vec::new())).is_err());
}
