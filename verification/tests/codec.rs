use fantom::codec::{
    check_comment, check_name, is_placeholder_name, read_bundled_tones, read_scene_records,
    read_scenes, read_zones, resolve_tone, set_scene_comment, set_scene_name, BundledTone,
    ToneResolver, COMMENT_LEN, COMMENT_OFFSET, NAME_LEN,
};
use fantom::container::{Raw, RawZone, ZoneSettings};
use fantom::model::{ToneRef, ToneType};
use fantom::{Error, Field};

const ZEN_CORE_MSB: u8 = 87;
const TONE_MSB_OFFSET: usize = 0x00;
const TONE_ID_OFFSET: usize = 0x01;
const AREA_HEADER_LEN: usize = 0x10;

#[test]
fn a_name_is_checked_against_what_the_field_can_hold() {
    assert_eq!(check_name("Ballad Rhodes").unwrap(), "Ballad Rhodes");
    assert!(check_name("0123456789abcdef").is_ok());
    assert!(check_name("0123456789abcdefg").is_err());
    assert!(check_name("café").is_err());
    assert!(check_name("tab\there").is_err());
    assert_eq!(check_name("Pad   ").unwrap(), "Pad");
}

#[test]
fn a_refused_field_says_why() {
    assert_eq!(
        check_name("café"),
        Err(Error::BadCharacter { field: Field::Name, found: 'é' })
    );
    assert_eq!(
        check_name("0123456789abcdefg"),
        Err(Error::TooLong { field: Field::Name, limit: 16, got: 17 })
    );
    let long = "x".repeat(65);
    assert_eq!(
        check_comment(&long),
        Err(Error::TooLong { field: Field::Comment, limit: 64, got: 65 })
    );
    assert_eq!(check_comment(&"y".repeat(64)).unwrap().len(), 64);
}

#[test]
fn the_placeholder_rule_matches_the_factory_convention() {
    for blank in [
        "",
        "   ",
        "INITIAL TONE",
        "INITIAL ORGAN",
        "INITIAL PIANO",
        "INITIAL KIT",
        "initial",
        "INIT TONE",
        "----",
    ] {
        assert!(is_placeholder_name(blank), "{blank:?} should read as blank");
    }
    for real in ["Mk1 Rhodes", "Initials", "INITIATE", "24k Logic I", "Init'l"] {
        assert!(!is_placeholder_name(real), "{real:?} is a real name");
    }
}

#[test]
fn the_placeholder_rule_covers_the_short_spellings() {
    for blank in ["InitTone", " initscene ", "---", "Init"] {
        assert!(is_placeholder_name(blank), "{blank:?} should read as blank");
    }
    for real in ["--", "-----", "Init2", "InitialX"] {
        assert!(!is_placeholder_name(real), "{real:?} is a real name");
    }
}

fn svd_with_scenes(names: &[&str], record_size: usize) -> Raw {
    let area_len = AREA_HEADER_LEN + names.len() * record_size;
    let mut area = Vec::new();
    area.extend_from_slice(&(names.len() as u32).to_le_bytes());
    area.extend_from_slice(&(record_size as u32).to_le_bytes());
    area.extend_from_slice(&[0u8; 8]);
    for name in names {
        let mut rec = vec![0u8; record_size];
        let bytes = name.as_bytes();
        rec[..bytes.len().min(NAME_LEN)].copy_from_slice(&bytes[..bytes.len().min(NAME_LEN)]);
        area.extend_from_slice(&rec);
    }
    let mut file = Vec::new();
    file.extend_from_slice(&30u16.to_le_bytes());
    file.extend_from_slice(b"SVD5");
    file.extend_from_slice(&[0u8; 10]);
    file.extend_from_slice(b"PRFa");
    file.extend_from_slice(b"KY19");
    file.extend_from_slice(&0x20u32.to_le_bytes());
    file.extend_from_slice(&(area_len as u32).to_le_bytes());
    file.extend_from_slice(&area);
    Raw::from_bytes(file)
}

#[test]
fn reads_multiple_scene_names_and_skips_empty_slots() {
    let raw = svd_with_scenes(&["DSOTM Breathe", "On The Run", "", ""], 64);
    let scenes = read_scenes(&raw).unwrap();
    let names: Vec<_> = scenes.iter().map(|s| s.name.as_str()).collect();
    assert_eq!(names, ["DSOTM Breathe", "On The Run"]);
    assert!(scenes[0].zones.is_empty());
}

#[test]
fn scene_records_follow_the_same_numbering() {
    let raw = svd_with_scenes(&["First", "", "Third"], 32);
    let records = read_scene_records(&raw).unwrap();
    assert_eq!(records.len(), 2);
    assert_eq!(&records[0][..5], b"First");
    assert_eq!(&records[1][..5], b"Third");
    assert_eq!(records[1].len(), 32);
}

#[test]
fn reads_scene_comment_at_0x40() {
    let rsize = 0x80;
    let mut area = Vec::new();
    area.extend_from_slice(&1u32.to_le_bytes());
    area.extend_from_slice(&(rsize as u32).to_le_bytes());
    area.extend_from_slice(&[0u8; 8]);
    let mut rec = vec![b' '; rsize];
    rec[..5].copy_from_slice(b"Scene");
    rec[COMMENT_OFFSET..COMMENT_OFFSET + 9].copy_from_slice(b"a memo   ".as_slice());
    area.extend_from_slice(&rec);

    let mut file = Vec::new();
    file.extend_from_slice(&30u16.to_le_bytes());
    file.extend_from_slice(b"SVD5");
    file.extend_from_slice(&[0u8; 10]);
    file.extend_from_slice(b"PRFa");
    file.extend_from_slice(b"KY19");
    file.extend_from_slice(&0x20u32.to_le_bytes());
    file.extend_from_slice(&(area.len() as u32).to_le_bytes());
    file.extend_from_slice(&area);

    let scenes = read_scenes(&Raw::from_bytes(file)).unwrap();
    assert_eq!(scenes[0].name, "Scene");
    assert_eq!(scenes[0].comment, "a memo");
}

#[test]
fn a_file_without_scenes_says_so() {
    let raw = build_svd(&[(b"PATa", b"KY19", &[0u8; 16])]);
    assert_eq!(read_scenes(&raw), Err(Error::MissingArea { tag: *b"PRFa" }));
    let mut bytes = svd_with_scenes(&["A"], 32).bytes().to_vec();
    bytes[0x24..0x28].copy_from_slice(&0u32.to_le_bytes());
    let zero = Raw::from_bytes(bytes);
    assert_eq!(read_scenes(&zero), Err(Error::ZeroRecordSize { tag: *b"PRFa" }));
    assert_eq!(read_scene_records(&zero), Err(Error::ZeroRecordSize { tag: *b"PRFa" }));
    assert!(read_scenes(&Raw::from_bytes(vec![0u8; 4])).is_err());
}

#[test]
fn resolves_user_tones_in_a_backup_shaped_file() {
    let mut names = vec![String::new(); 600];
    names[443] = "Africa Brass".to_owned();
    names[546] = "Sledgehammer Sha".to_owned();
    let r = ToneResolver { names: vec![(*b"PATa", names)] };

    assert_eq!(resolve_tone(ZEN_CORE_MSB, 0x033b, Some(&r)).name(), Some("Africa Brass"));
    assert_eq!(resolve_tone(ZEN_CORE_MSB, 0x0422, Some(&r)).name(), Some("Sledgehammer Sha"));
}

#[test]
fn resolve_tone_names_bundled_records_only() {
    let r = ToneResolver {
        names: vec![
            (*b"PATa", vec!["Strings Fall".to_owned(), "Jump Brass EmA".to_owned()]),
            (*b"ZEPa", vec!["Time Intro EP".to_owned()]),
        ],
    };
    assert_eq!(
        resolve_tone(ZEN_CORE_MSB, 0x0001, Some(&r)),
        ToneRef::new(87, 0, 1, Some("Jump Brass EmA".into()))
    );
    assert_eq!(resolve_tone(ZEN_CORE_MSB, 0x0009, Some(&r)), ToneRef::new(87, 0, 9, None));
    assert_eq!(resolve_tone(ZEN_CORE_MSB, 0x0001, None), ToneRef::new(87, 0, 1, None));
    let sn_ep = resolve_tone(105, 0x0100, Some(&r));
    assert_eq!(sn_ep.name(), Some("Time Intro EP"));
    assert_eq!(sn_ep.tone_type(), ToneType::SnEp);
    assert_eq!(sn_ep.bank(), Some("USER"));
}

fn record_with_zone(number: usize, enable: u8, key_low: u8, key_high: u8, level: u8) -> Vec<u8> {
    let mut rec = vec![0u8; 3572];
    for n in 0..16 {
        let zb = RawZone::TABLE_OFFSET + n * RawZone::LEN;
        rec[zb + 0x3e] = 0xcf;
        rec[zb + 0x3f] = 0xcd;
        rec[ZoneSettings::TABLE_OFFSET + n * ZoneSettings::LEN] = 0x57;
    }
    let zb = RawZone::TABLE_OFFSET + number * RawZone::LEN;
    rec[zb + 0x04] = enable;
    rec[zb + 0x08] = key_low;
    rec[zb + 0x09] = key_high;
    rec[ZoneSettings::TABLE_OFFSET + number * ZoneSettings::LEN + 0x07] = level;
    rec
}

#[test]
fn read_zones_decodes_switch_key_range_and_level() {
    let rec = record_with_zone(2, 1, 60, 72, 50);
    let zones = read_zones(&rec, None).unwrap();
    assert_eq!(zones.len(), 16);
    let z = &zones[2];
    assert_eq!((z.number, z.enabled, z.key_low, z.key_high, z.level), (2, true, 60, 72, 50));
    assert!(!zones[0].enabled);
}

#[test]
fn a_record_too_short_for_the_zone_table_has_no_zones() {
    let rec = vec![0u8; 0x6d0 + 0x5f];
    assert!(read_zones(&rec, None).unwrap().is_empty());
}

fn write_ascii(buf: &mut [u8], at: usize, len: usize, s: &str) {
    let b = s.as_bytes();
    let n = b.len().min(len);
    buf[at..at + n].copy_from_slice(&b[..n]);
    buf[at + n..at + len].fill(b' ');
}

fn golden_record(name: &str, comment: &str) -> Vec<u8> {
    let mut r = vec![0u8; 3572];
    write_ascii(&mut r, 0, NAME_LEN, name);
    write_ascii(&mut r, COMMENT_OFFSET, COMMENT_LEN, comment);
    r
}

fn golden_zone(
    r: &mut [u8],
    n: usize,
    enabled: bool,
    key_low: u8,
    key_high: u8,
    level: u8,
    tone_id: u16,
) {
    let zb = RawZone::TABLE_OFFSET + n * RawZone::LEN;
    r[zb + 0x04] = enabled as u8;
    r[zb + 0x08] = key_low;
    r[zb + 0x09] = key_high;
    r[zb + 0x3e..zb + 0x40].copy_from_slice(&RawZone::marker());

    let sb = ZoneSettings::TABLE_OFFSET + n * ZoneSettings::LEN;
    r[sb + TONE_MSB_OFFSET] = ZEN_CORE_MSB;
    r[sb + 0x07] = level;
    r[sb + TONE_ID_OFFSET..sb + TONE_ID_OFFSET + 2].copy_from_slice(&tone_id.to_be_bytes());
}

fn build_svd(areas: &[(&[u8; 4], &[u8; 4], &[u8])]) -> Raw {
    let table_len = areas.len() * 16;
    let header_size = 14 + table_len as u16;
    let mut table = Vec::new();
    let mut bodies = Vec::new();
    let mut offset = 0x10 + table_len;
    for (tag, format, body) in areas {
        table.extend_from_slice(*tag);
        table.extend_from_slice(*format);
        table.extend_from_slice(&(offset as u32).to_le_bytes());
        table.extend_from_slice(&(body.len() as u32).to_le_bytes());
        bodies.extend_from_slice(body);
        offset += body.len();
    }
    let mut file = Vec::new();
    file.extend_from_slice(&header_size.to_le_bytes());
    file.extend_from_slice(b"SVD5");
    file.extend_from_slice(&[0u8; 10]);
    file.extend_from_slice(&table);
    file.extend_from_slice(&bodies);
    Raw::from_bytes(file)
}

fn named_record_area(record_size: usize, name_offset: usize, names: &[&str]) -> Vec<u8> {
    let mut area = Vec::new();
    area.extend_from_slice(&(names.len() as u32).to_le_bytes());
    area.extend_from_slice(&(record_size as u32).to_le_bytes());
    area.extend_from_slice(&[0u8; 8]);
    for name in names {
        let mut record = vec![0u8; record_size];
        write_ascii(&mut record, name_offset, NAME_LEN, name);
        area.extend_from_slice(&record);
    }
    area
}

#[test]
fn lists_multi_record_model_and_vpiano_tones() {
    let dcwa = named_record_area(684, 0, &["Stage Grand4", "Stage Grand4 3"]);
    let mdla = named_record_area(2048, 0x10, &["Berlin Night  4", "Berlin Night  6"]);
    let raw = build_svd(&[(b"DCWa", b"KY19", &dcwa), (b"MDLa", b"KY19", &mdla)]);

    let tones = read_bundled_tones(&raw).unwrap();
    let tones: Vec<_> = tones
        .iter()
        .map(|tone| (tone.area, tone.tone_type, tone.index, tone.name.as_str()))
        .collect();
    assert_eq!(
        tones,
        [
            (*b"DCWa", ToneType::VPiano, 0, "Stage Grand4"),
            (*b"DCWa", ToneType::VPiano, 1, "Stage Grand4 3"),
            (*b"MDLa", ToneType::Model, 0, "Berlin Night  4"),
            (*b"MDLa", ToneType::Model, 1, "Berlin Night  6"),
        ]
    );
}

#[test]
fn golden_file_round_trips_user_tones_through_read_scenes() {
    const USER_A: u16 = 0x0005;
    const USER_B: u16 = 0x0101;

    let mut scene1 = golden_record("Golden Scene", "regression fixture");
    golden_zone(&mut scene1, 0, true, 0, 60, 100, USER_A);
    golden_zone(&mut scene1, 2, true, 0, 127, 127, USER_B);
    let scene2 = golden_record("Second Scene", "");

    let mut prfa = Vec::new();
    prfa.extend_from_slice(&2u32.to_le_bytes());
    prfa.extend_from_slice(&(scene1.len() as u32).to_le_bytes());
    prfa.extend_from_slice(&[0u8; 8]);
    prfa.extend_from_slice(&scene1);
    prfa.extend_from_slice(&scene2);

    let mut names = vec![""; 130];
    names[5] = "Golden User A";
    names[129] = "Golden User B";
    let pata = named_record_area(32, 0, &names);

    let raw = build_svd(&[(b"PRFa", b"KY19", &prfa), (b"PATa", b"KY19", &pata)]);
    let scenes = read_scenes(&raw).unwrap();
    assert_eq!(scenes.len(), 2);
    let s1 = &scenes[0];
    assert_eq!(s1.name, "Golden Scene");
    assert_eq!(s1.comment, "regression fixture");
    assert_eq!(s1.zones.len(), 2);
    assert_eq!(s1.zones[0].number, 0);
    assert!(s1.zones[0].enabled);
    assert_eq!((s1.zones[0].key_low, s1.zones[0].key_high, s1.zones[0].level), (0, 60, 100));
    assert_eq!(s1.zones[0].tone, ToneRef::new(87, 0, 5, Some("Golden User A".into())));
    assert_eq!(s1.zones[1].number, 2);
    assert_eq!(s1.zones[1].tone, ToneRef::new(87, 1, 1, Some("Golden User B".into())));
    let s2 = &scenes[1];
    assert_eq!(s2.name, "Second Scene");
    assert_eq!(s2.comment, "");
    assert!(s2.zones.is_empty());
}

#[test]
fn resolves_word_swapped_acb_user_name() {
    let mut scene = golden_record("ACB Scene", "");
    golden_zone(&mut scene, 0, true, 0, 127, 100, 0);
    scene[ZoneSettings::TABLE_OFFSET + TONE_MSB_OFFSET] = 107;

    let mut prfa = Vec::new();
    prfa.extend_from_slice(&1u32.to_le_bytes());
    prfa.extend_from_slice(&(scene.len() as u32).to_le_bytes());
    prfa.extend_from_slice(&[0u8; 8]);
    prfa.extend_from_slice(&scene);

    let mut acb_record = vec![0u8; 9984];
    let name = b"Soft & Subtle3  ";
    for (source, target) in name.chunks_exact(4).zip(acb_record[0x1c44..0x1c54].chunks_exact_mut(4)) {
        target.copy_from_slice(&[source[3], source[2], source[1], source[0]]);
    }
    let mut acba = Vec::new();
    acba.extend_from_slice(&1u32.to_le_bytes());
    acba.extend_from_slice(&(acb_record.len() as u32).to_le_bytes());
    acba.extend_from_slice(&[0u8; 8]);
    acba.extend_from_slice(&acb_record);

    let raw = build_svd(&[(b"PRFa", b"KY19", &prfa), (b"ACBa", b"KY19", &acba)]);
    let scenes = read_scenes(&raw).unwrap();
    assert_eq!(scenes[0].zones[0].tone.name(), Some("Soft & Subtle3"));
    assert_eq!(
        read_bundled_tones(&raw).unwrap(),
        [BundledTone {
            area: *b"ACBa",
            tone_type: ToneType::Acb,
            index: 0,
            name: "Soft & Subtle3".into(),
        }]
    );
}

#[test]
fn edit_scene_name_and_comment_touches_only_those_fields() {
    let scene1 = golden_record("Old Name", "old comment");
    let scene2 = golden_record("Keep Me", "keep");
    let mut prfa = Vec::new();
    prfa.extend_from_slice(&2u32.to_le_bytes());
    prfa.extend_from_slice(&(scene1.len() as u32).to_le_bytes());
    prfa.extend_from_slice(&[0u8; 8]);
    prfa.extend_from_slice(&scene1);
    prfa.extend_from_slice(&scene2);
    let raw0 = build_svd(&[(b"PRFa", b"KY19", &prfa)]);
    let before = raw0.bytes().to_vec();

    let mut raw = raw0.clone();
    set_scene_name(&mut raw, 1, "New Name").unwrap();
    set_scene_comment(&mut raw, 1, "new comment").unwrap();

    let mut rejected = raw.clone();
    assert!(set_scene_name(&mut rejected, 1, "a name far longer than sixteen").is_err());
    assert!(set_scene_name(&mut rejected, 1, "café").is_err());
    assert_eq!(rejected.bytes(), raw.bytes());

    let scenes = read_scenes(&raw).unwrap();
    assert_eq!((scenes[0].name.as_str(), scenes[0].comment.as_str()), ("New Name", "new comment"));
    assert_eq!((scenes[1].name.as_str(), scenes[1].comment.as_str()), ("Keep Me", "keep"));

    let after = raw.bytes();
    assert_eq!(after.len(), before.len());
    let rec = 0x20 + AREA_HEADER_LEN;
    let name_field = rec..rec + NAME_LEN;
    let comment_field = rec + COMMENT_OFFSET..rec + COMMENT_OFFSET + COMMENT_LEN;
    for (i, (a, b)) in before.iter().zip(after).enumerate() {
        if a != b {
            assert!(
                name_field.contains(&i) || comment_field.contains(&i),
                "byte {i:#x} changed outside the name/comment fields"
            );
        }
    }
}

#[test]
fn editing_a_scene_past_the_last_is_refused() {
    let mut raw = svd_with_scenes(&["Only"], 0x80);
    let before = raw.bytes().to_vec();
    assert_eq!(
        set_scene_name(&mut raw, 2, "Other"),
        Err(Error::SceneOutOfRange { scene: 2, count: 1 })
    );
    assert_eq!(
        set_scene_name(&mut raw, 0, "Other"),
        Err(Error::SceneOutOfRange { scene: 0, count: 1 })
    );
    assert_eq!(raw.bytes(), &before[..]);
    let mut short = svd_with_scenes(&["Only"], 0x40);
    assert_eq!(
        set_scene_comment(&mut short, 1, "memo"),
        Err(Error::ShortRecord { needed: 0x80, got: 0x40 })
    );
}
