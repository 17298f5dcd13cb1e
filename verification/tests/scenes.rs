use fantom::container::Raw;
use fantom::model::{KeyboardGroup, Scene, ToneRef, Zone};
use fantom::scenes::{reference, scene_candidates, scene_detail};
use fantom::Error;

fn zone(number: u8, enabled: bool, tone: ToneRef) -> Zone {
    Zone {
        number,
        enabled,
        muted: false,
        tone,
        key_low: 0,
        key_high: 127,
        velocity_low: 1,
        velocity_high: 127,
        level: 100,
        pan: 0,
        transpose: 0,
        octave: 0,
        midi_channel: number,
        arpeggio: false,
    }
}

fn scene(zones: Vec<Zone>, groups: Vec<KeyboardGroup>) -> Scene {
    Scene { name: "Live".into(), comment: "memo".into(), tempo: 12050, level: 110, zones, groups }
}

#[test]
fn a_reference_names_engine_bank_program_and_name() {
    assert_eq!(reference(&ToneRef::new(86, 64, 5, Some("Kit A".into()))), "Drum PR-A PC 005 \"Kit A\"");
    assert_eq!(reference(&ToneRef::new(89, 65, 10, None)), "SN-A PRST PC 010");
    assert_eq!(reference(&ToneRef::new(93, 99, 7, None)), "EXZ raw PC 007");
}

#[test]
fn a_scene_detail_lists_what_its_playing_zones_need() {
    let mut off = zone(4, false, ToneRef::new(86, 64, 1, Some("Unused Kit".into())));
    off.level = 100;
    let mut edited_off = zone(5, false, ToneRef::new(86, 65, 2, None));
    edited_off.level = 90;
    let s = scene(
        vec![
            zone(0, true, ToneRef::new(87, 0, 3, Some("My Pad".into()))),
            zone(1, true, ToneRef::new(89, 65, 10, None)),
            zone(2, true, ToneRef::new(86, 64, 5, Some("Kit A".into()))),
            zone(3, true, ToneRef::new(87, 1, 4, Some("My Pad".into()))),
            off,
            edited_off,
        ],
        vec![KeyboardGroup { number: 2, zones: vec![1, 3] }],
    );
    let d = scene_detail(&s);
    assert_eq!(d.tempo, 12050);
    assert_eq!(d.level, 110);
    assert_eq!(d.active_zones, 4);
    assert_eq!(d.engines, vec!["ZEN-Core", "SN-A", "Drum"]);
    assert_eq!(d.user_tones, vec!["My Pad"]);
    assert_eq!(
        d.external_refs,
        vec!["Drum CMN PC 002", "Drum PR-A PC 005 \"Kit A\"", "SN-A PRST PC 010"]
    );
    assert_eq!(d.zones.len(), 6);
    assert_eq!(d.zones[0].number, 1);
    assert_eq!(d.zones[0].bank, "USER");
    assert_eq!(d.zones[0].tone, "My Pad");
    assert_eq!(d.zones[0].groups, vec![2]);
    assert_eq!(d.zones[0].midi_channel, 1);
    assert_eq!(d.zones[1].tone, "—");
    assert_eq!(d.zones[4].state, "unused");
    assert_eq!(d.zones[5].state, "off");
    assert_eq!(d.groups.len(), 1);
    assert_eq!(d.groups[0].zones, vec![1, 3]);
}

fn svd_with_scenes(names: &[&str], record_size: usize) -> Raw {
    let area_len = 16 + names.len() * record_size;
    let mut area = Vec::new();
    area.extend_from_slice(&(names.len() as u32).to_le_bytes());
    area.extend_from_slice(&(record_size as u32).to_le_bytes());
    area.extend_from_slice(&[0u8; 8]);
    for name in names {
        let mut rec = vec![0u8; record_size];
        rec[..name.len()].copy_from_slice(name.as_bytes());
        area.extend_from_slice(&rec);
    }
    let mut file = Vec::new();
    file.extend_from_slice(&30u16.to_le_bytes());
    file.extend_from_slice(b"SVD5");
    file.extend_from_slice(&[0u8; 10]);
    file.extend_from_slice(b"PRFa");
    file.extend_from_slice(b"KY19");
    file.extend_from_slice(&0x20u32.to_le_bytes());
    file.extend_from_slice(&(area_len as u32).to_le_bytes());
    file.extend_from_slice(&area);
    Raw::from_bytes(file)
}

#[test]
fn a_file_offers_its_named_scenes() {
    let raw = svd_with_scenes(&["Breathe", "InitScene", "On The Run"], 0x80);
    let found = scene_candidates(&raw).unwrap();
    assert_eq!(found.len(), 2);
    assert_eq!(found[0].name, "Breathe");
    assert_eq!(found[0].number, 1);
    assert_eq!(found[1].name, "On The Run");
    assert_eq!(found[1].number, 3);
    assert_eq!(found[1].engine, "—");
    assert_eq!(found[1].record.len(), 0x80);
    assert_eq!(&found[1].record[..10], b"On The Run");
}

#[test]
fn a_file_without_scenes_offers_none() {
    let mut bytes = svd_with_scenes(&["A"], 32).bytes().to_vec();
    bytes[0x24..0x28].copy_from_slice(&0u32.to_le_bytes());
    assert_eq!(scene_candidates(&Raw::from_bytes(bytes)).unwrap_err(), Error::ZeroRecordSize { tag: *b"PRFa" });
}

#[test]
fn a_listing_names_each_switched_on_reference_once() {
    let s = scene(
        vec![
            zone(0, true, ToneRef::new(86, 64, 5, Some("Kit A".into()))),
            zone(1, false, ToneRef::new(89, 65, 10, None)),
            zone(2, true, ToneRef::new(86, 64, 5, Some("Kit A".into()))),
            zone(3, true, ToneRef::new(87, 0, 3, Some("My Pad".into()))),
        ],
        vec![],
    );
    assert_eq!(
        fantom::scenes::enabled_references(&s),
        vec!["Drum PR-A PC 005 \"Kit A\"", "ZEN-Core USER PC 003 \"My Pad\""]
    );
}

#[test]
fn a_library_row_summarises_its_item() {
    let d = scene_detail(&scene(vec![zone(0, true, ToneRef::new(87, 0, 3, None))], vec![]));
    assert_eq!(fantom::scenes::AssetDetail::Scene(d).summary(), "120.50 BPM · 1 zone");
    let tone = |area: &str| fantom::library::ToneDetail {
        engine: "ZEN-Core".into(),
        area: area.into(),
        index: 0,
        bank: None,
        address: None,
        category: None,
        model_id: None,
        requirements: fantom::requirements::Requirements::default(),
    };
    assert_eq!(fantom::scenes::AssetDetail::Tone(tone("PATa")).summary(), "ZEN-Core · PATa");
    assert_eq!(fantom::scenes::AssetDetail::Tone(tone("")).summary(), "ZEN-Core");
}
