use std::collections::BTreeMap;

use fantom::bytes::read_u16;
use fantom::container::ins;
use fantom::container::msmp;
use fantom::container::pat::{
    self, PatArea, CATEGORY_OFFSET, NAME_LEN, PARTIAL_COUNT, PARTIAL_STRIDE, WAVE_GROUP_OFFSET,
    WAVE_NUMBER_OFFSET,
};
use fantom::container::sample::{self, factory_multisample_record, END, IN_USE, LEVEL, ORIGINAL_KEY, SLOT_LEN};
use fantom::container::{Area, Kind, Raw, RawZone, RecordTable, Svd, ZoneSettings};

// ---- raw -------------------------------------------------------------------------------------

#[test]
fn hexdump_renders_addresses_and_ascii() {
    let raw = Raw::from_bytes(b"SVD \x00\x01ABCDEF".to_vec());
    let dump = raw.hexdump(0, raw.len());
    assert!(dump.starts_with("00000000  53 56 44 20"));
    assert!(dump.contains("|SVD ..ABCDEF|"));
}

#[test]
fn ascii_magic_detects_printable_header() {
    let raw = Raw::from_bytes(b"SVD \x00\x00".to_vec());
    assert_eq!(raw.ascii_magic(4).as_deref(), Some("SVD "));
    assert_eq!(raw.ascii_magic(6), None);
}

#[test]
fn a_hexdump_pads_its_last_line_and_clamps_to_the_file() {
    let raw = Raw::from_bytes((0u8..20).collect());
    let dump = raw.hexdump(0, 100);
    let lines: Vec<&str> = dump.lines().collect();
    assert_eq!(lines.len(), 2);
    assert_eq!(
        lines[0],
        "00000000  00 01 02 03 04 05 06 07  08 09 0a 0b 0c 0d 0e 0f  |................|"
    );
    assert_eq!(
        lines[1],
        "00000010  10 11 12 13                                       |....|"
    );
    assert_eq!(raw.hexdump(50, 10), "");
    assert!(raw.ascii_magic(30).is_none());
}

// ---- records ---------------------------------------------------------------------------------

fn area(offset: u32, size: u32) -> Area {
    Area { tag: *b"PATa", format: *b"KY19", offset, size }
}

fn body(count: u32, record_size: u32, records: usize) -> Vec<u8> {
    let mut b = Vec::new();
    b.extend_from_slice(&count.to_le_bytes());
    b.extend_from_slice(&record_size.to_le_bytes());
    b.extend_from_slice(&16u32.to_le_bytes());
    b.extend_from_slice(&[0u8; 4]);
    for i in 0..records {
        b.extend(std::iter::repeat_n(i as u8, record_size as usize));
    }
    b
}

#[test]
fn reads_records_at_the_declared_stride() {
    let bytes = body(3, 8, 3);
    let table = RecordTable::parse(&area(0x100, bytes.len() as u32), &bytes).unwrap();
    assert_eq!(table.len(), 3);
    assert_eq!(table.record_size, 8);
    assert_eq!(table.record(1).unwrap(), &[1u8; 8]);
    assert_eq!(table.record_offset(1), 0x100 + 0x10 + 8);
    assert!(table.record(3).is_none());
}

#[test]
fn caps_the_declared_count_at_what_the_area_holds() {
    let bytes = body(9, 8, 2);
    let table = RecordTable::parse(&area(0, bytes.len() as u32), &bytes).unwrap();
    assert_eq!(table.declared_count, 9);
    assert_eq!(table.len(), 2);
    assert!(table.record(2).is_none());
}

#[test]
fn rejects_a_zero_record_size() {
    let bytes = body(1, 0, 0);
    assert!(RecordTable::parse(&area(0, bytes.len() as u32), &bytes).is_err());
}

// ---- svd -------------------------------------------------------------------------------------

fn synthetic_svd() -> Raw {
    let mut b = Vec::new();
    b.extend_from_slice(&30u16.to_le_bytes());
    b.extend_from_slice(b"SVD5");
    b.extend_from_slice(&[0u8; 10]);
    b.extend_from_slice(b"PRFa");
    b.extend_from_slice(b"KY19");
    b.extend_from_slice(&0x20u32.to_le_bytes());
    b.extend_from_slice(&0x20u32.to_le_bytes());
    b.extend_from_slice(&0x10u32.to_le_bytes());
    b.extend_from_slice(&0x20u32.to_le_bytes());
    b.extend_from_slice(&[0u8; 8]);
    b.extend_from_slice(b"Test Scene\0\0\0\0\0\0");
    Raw::from_bytes(b)
}

fn synthetic_svz() -> Raw {
    let mut b = Vec::new();
    b.extend_from_slice(b"SVZa");
    b.push(1);
    b.push(3);
    b.extend_from_slice(b"KY019$");
    b.extend_from_slice(&[0u8; 4]);
    b.extend_from_slice(b"PATa");
    b.extend_from_slice(b"ZCOR");
    b.extend_from_slice(&0x20u32.to_le_bytes());
    b.extend_from_slice(&0x34u32.to_le_bytes());
    b.extend_from_slice(&1u32.to_le_bytes());
    b.extend_from_slice(&0x20u32.to_le_bytes());
    b.extend_from_slice(&20u32.to_le_bytes());
    b.extend_from_slice(&[0u8; 4]);
    b.extend_from_slice(&0xdeadbeefu32.to_le_bytes());
    b.extend_from_slice(b"ACYL Lead\0\0\0\0\0\0\0");
    b.extend_from_slice(&[0u8; 16]);
    Raw::from_bytes(b)
}

#[test]
fn parses_header_and_single_area() {
    let raw = synthetic_svd();
    let svd = Svd::parse(&raw).unwrap();
    assert_eq!(svd.kind, Kind::Svd);
    assert_eq!(svd.areas.len(), 1);
    assert_eq!(svd.areas[0].tag_str(), "PRFa");
    assert_eq!(svd.areas[0].offset, 0x20);
}

#[test]
fn parses_an_svz_tone_export() {
    let raw = synthetic_svz();
    let svd = Svd::parse(&raw).unwrap();
    assert_eq!(svd.kind, Kind::Svz);
    assert_eq!(svd.areas.len(), 1);
    assert_eq!(svd.areas[0].tag_str(), "PATa");
    assert_eq!(svd.areas[0].format_str(), "ZCOR");
}

#[test]
fn svz_records_start_after_the_declared_info_block() {
    let raw = synthetic_svz();
    let svd = Svd::parse(&raw).unwrap();
    let area = svd.area(b"PATa").unwrap();
    let table = RecordTable::parse(area, svd.area_bytes(&raw, area).unwrap()).unwrap();

    assert_eq!(table.info_len, 20);
    assert_eq!(table.len(), 1);
    assert_eq!(&table.record(0).unwrap()[..9], b"ACYL Lead");
    assert_eq!(table.info_stride(), 4);
    assert_eq!(table.record_info(0).unwrap(), 0xdeadbeefu32.to_le_bytes());
}

#[test]
fn area_lookup_and_bytes_are_bounds_checked() {
    let raw = synthetic_svd();
    let svd = Svd::parse(&raw).unwrap();
    let prfa = svd.area(b"PRFa").expect("PRFa present");
    let bytes = svd.area_bytes(&raw, prfa).unwrap();
    assert_eq!(bytes.len(), 0x20);
}

#[test]
fn rejects_wrong_magic() {
    let raw = Raw::from_bytes(b"\x1e\x00XXXX".to_vec());
    assert!(Svd::parse(&raw).is_err());
}

#[test]
fn envelope_errors_name_what_is_wrong() {
    assert_eq!(Svd::parse(&Raw::from_bytes(vec![0; 8])), Err(fantom::Error::ShortHeader));
    match Svd::parse(&Raw::from_bytes(b"XXXXXXXXXXXXXXXX".to_vec())) {
        Err(fantom::Error::NotAContainer { head }) => assert_eq!(head, b"XXXXXX"),
        other => panic!("{other:?}"),
    }
    let mut truncated = synthetic_svd().bytes().to_vec();
    truncated.truncate(0x18);
    assert_eq!(
        Svd::parse(&Raw::from_bytes(truncated)),
        Err(fantom::Error::AreaTableBeyondFile { count: 1 })
    );
    let raw = synthetic_svd();
    let svd = Svd::parse(&raw).unwrap();
    let mut bad = svd.areas[0];
    bad.size = 0x1000;
    assert!(matches!(svd.area_bytes(&raw, &bad), Err(fantom::Error::AreaBeyondFile { .. })));
    assert_eq!(svd.preamble(&raw).unwrap().len(), 0x10);
    assert!(svd.area(b"PATa").is_none());
    assert_eq!(Kind::Svz.magic(), *b"SVZa");
    assert_eq!(Kind::Svd.magic(), *b"SVD5");
}

// ---- zone ------------------------------------------------------------------------------------

#[test]
fn raw_zone_reads_switch_and_key_range() {
    let mut b = vec![0u8; RawZone::LEN];
    b[0x04] = 1;
    b[0x08] = 60;
    b[0x09] = 72;
    b[0x3e] = 0xcf;
    b[0x3f] = 0xcd;
    let z = RawZone::read(&b).unwrap();
    assert_eq!((z.enable, z.key_low, z.key_high), (1, 60, 72));
}

#[test]
fn raw_zone_rejects_bad_marker() {
    let b = vec![0u8; RawZone::LEN];
    assert!(RawZone::read(&b).is_err());
}

#[test]
fn zone_settings_reads_level() {
    let mut b = vec![0u8; ZoneSettings::LEN];
    b[0x00] = 0x57;
    b[0x07] = 50;
    let s = ZoneSettings::read(&b).unwrap();
    assert_eq!(s.level, 50);
}

// ---- pat -------------------------------------------------------------------------------------

fn area_with(names: &[(&str, u8)], record_size: usize) -> Vec<u8> {
    let mut a = Vec::new();
    a.extend_from_slice(&(names.len() as u32).to_le_bytes());
    a.extend_from_slice(&(record_size as u32).to_le_bytes());
    a.extend_from_slice(&[0u8; 8]);
    for (name, cat) in names {
        let mut rec = vec![0u8; record_size];
        let b = name.as_bytes();
        rec[..b.len().min(NAME_LEN)].copy_from_slice(&b[..b.len().min(NAME_LEN)]);
        rec[CATEGORY_OFFSET] = *cat;
        a.extend_from_slice(&rec);
    }
    a
}

#[test]
fn parses_tone_names_and_categories() {
    let area = area_with(&[("Africa Brass", 0x23), ("Africa Kalimba", 0x0f)], 64);
    let pat = PatArea::parse(&area).unwrap();
    assert_eq!(pat.tones().len(), 2);
    assert_eq!(pat.get(0).unwrap().name, "Africa Brass");
    assert_eq!(pat.get(0).unwrap().category, 0x23);
    assert_eq!(pat.get(1).unwrap().name, "Africa Kalimba");
    assert!(pat.get(2).is_none());
}

#[test]
fn records_start_at_the_declared_offset_not_a_fixed_sixteen() {
    const RECORD_SIZE: usize = 64;
    let names = [("Sledgehammer Sha", 0x11u8), ("Second Tone", 0x22)];
    let data_start = 0x10 + names.len() * 4;

    let mut area = Vec::new();
    area.extend_from_slice(&(names.len() as u32).to_le_bytes());
    area.extend_from_slice(&(RECORD_SIZE as u32).to_le_bytes());
    area.extend_from_slice(&(data_start as u32).to_le_bytes());
    area.extend_from_slice(&[0u8; 4]);
    area.extend_from_slice(&[0xAA; 8]);
    for (name, category) in names {
        let mut record = vec![0u8; RECORD_SIZE];
        record[..name.len()].copy_from_slice(name.as_bytes());
        record[CATEGORY_OFFSET] = category;
        area.extend_from_slice(&record);
    }

    let pat = PatArea::parse(&area).unwrap();
    assert_eq!(pat.get(0).unwrap().name, "Sledgehammer Sha");
    assert_eq!(pat.get(0).unwrap().category, 0x11);
    assert_eq!(pat.get(1).unwrap().name, "Second Tone");
}

#[test]
fn an_impossible_data_start_falls_back_to_the_fixed_header() {
    let mut area = area_with(&[("Africa Brass", 0x23)], 64);
    area[8..12].copy_from_slice(&0x5555_5555u32.to_le_bytes());
    assert_eq!(PatArea::parse(&area).unwrap().get(0).unwrap().name, "Africa Brass");
}

fn tone_with_partials(partials: &[(u8, u16)]) -> Vec<u8> {
    let mut record = vec![0u8; PARTIAL_COUNT * PARTIAL_STRIDE + WAVE_NUMBER_OFFSET + 2];
    for (partial, &(group, number)) in partials.iter().enumerate() {
        let base = partial * PARTIAL_STRIDE;
        record[WAVE_GROUP_OFFSET + base] = group;
        record[WAVE_NUMBER_OFFSET + base..WAVE_NUMBER_OFFSET + base + 2]
            .copy_from_slice(&number.to_le_bytes());
    }
    record
}

#[test]
fn reads_the_user_samples_a_tone_plays() {
    let record = tone_with_partials(&[(2, 7), (2, 8), (0, 383), (0, 0)]);
    assert_eq!(pat::sample_slots(&record), [7, 8]);
    assert_eq!(pat::sample_slots(&tone_with_partials(&[(0, 7)])), Vec::<u16>::new());
    assert_eq!(pat::sample_slots(&tone_with_partials(&[(2, 5), (2, 5)])), [5]);
    assert!(pat::sample_slots(&[0u8; 32]).is_empty());
}

#[test]
fn remapping_a_tone_moves_only_its_sample_partials() {
    let mut record = tone_with_partials(&[(2, 7), (0, 7), (2, 9)]);
    pat::remap_sample_slots(&mut record, &BTreeMap::from([(7, 1), (9, 2)]));
    assert_eq!(pat::sample_slots(&record), [1, 2]);
    // The ROM wave 7 on partial 2 stays where it was.
    assert_eq!(read_u16(&record, WAVE_NUMBER_OFFSET + PARTIAL_STRIDE), Some(7));
    let mut short = vec![0u8; 8];
    pat::remap_sample_slots(&mut short, &BTreeMap::from([(0, 1)]));
    assert_eq!(short, vec![0u8; 8]);
}

#[test]
fn a_truncated_or_malformed_tone_area_is_read_as_far_as_it_goes() {
    let mut area = area_with(&[("One", 1), ("Two", 2)], 64);
    area.truncate(area.len() - 10);
    let pat = PatArea::parse(&area).unwrap();
    assert_eq!(pat.tones().len(), 1);
    assert!(PatArea::parse(&[0u8; 6]).is_err());
    assert!(PatArea::parse(&area_with(&[], 0)).is_err());
}

// ---- ins -------------------------------------------------------------------------------------

const INSTRUMENT_LEN: usize = ins::INSTRUMENT_LEN;
const WAVE_BASE: usize = ins::WAVE_BASE;
const GROUP_TYPE: usize = 0x01;
const NUMBER_L: usize = 0x04;

fn kit(entries: &[(usize, u8, u16)]) -> Vec<u8> {
    let mut record = vec![0u8; 88 * INSTRUMENT_LEN];
    for &(key, group, slot) in entries {
        let base = key * INSTRUMENT_LEN + WAVE_BASE;
        record[base + GROUP_TYPE] = group;
        record[base + NUMBER_L..base + NUMBER_L + 2].copy_from_slice(&slot.to_le_bytes());
    }
    record
}

#[test]
fn reads_the_samples_a_kit_plays() {
    assert_eq!(ins::sample_slots(&kit(&[(15, 2, 1)])), [1]);
    assert_eq!(ins::sample_slots(&kit(&[(40, 2, 9), (2, 2, 4), (60, 2, 9)])), [4, 9]);
}

#[test]
fn a_rom_wave_is_not_a_sample() {
    assert!(ins::sample_slots(&kit(&[(15, 0, 588)])).is_empty());
    assert!(ins::sample_slots(&kit(&[(15, 2, 0)])).is_empty());
}

#[test]
fn remapping_moves_only_sample_references() {
    let mut record = kit(&[(15, 2, 1), (16, 0, 1)]);
    ins::remap_sample_slots(&mut record, &BTreeMap::from([(1, 2001)]));

    assert_eq!(ins::sample_slots(&record), [2001]);
    let rom = 16 * INSTRUMENT_LEN + WAVE_BASE + NUMBER_L;
    assert_eq!(read_u16(&record, rom), Some(1));
}

#[test]
fn a_record_too_short_for_an_instrument_yields_nothing() {
    assert!(ins::sample_slots(&[0u8; 32]).is_empty());
}

// ---- msmp ------------------------------------------------------------------------------------

fn multisample(name: &str, ranges: &[(u8, u8, u16)]) -> Vec<u8> {
    let mut record = vec![0u8; msmp::NAME_LEN + msmp::KEYS * msmp::ENTRY_LEN];
    record[..msmp::NAME_LEN].fill(b' ');
    record[..name.len()].copy_from_slice(name.as_bytes());
    for key in 0..msmp::KEYS {
        let at = msmp::NAME_LEN + key * msmp::ENTRY_LEN;
        let slot = ranges
            .iter()
            .find(|(lo, hi, _)| (*lo as usize..=*hi as usize).contains(&key))
            .map(|(_, _, slot)| *slot)
            .unwrap_or(0);
        record[at..at + 2].copy_from_slice(&slot.to_le_bytes());
        record[at + 2..at + 4].copy_from_slice(&127u16.to_le_bytes());
        record[at + 4..at + 6].copy_from_slice(&128u16.to_le_bytes());
    }
    record
}

#[test]
fn reads_the_key_ranges_of_a_multisample() {
    let record = multisample("T8_MSAMP", &[(0, 45, 2003), (46, 76, 2005), (77, 127, 2018)]);
    assert_eq!(msmp::sample_slots(&record), [2003, 2005, 2018]);

    let map = msmp::key_map(&record);
    assert_eq!(map.len(), 128, "every key plays something here");
    assert_eq!(map[0].slot, 2003);
    assert_eq!(map[46].slot, 2005);
    assert_eq!(map[127].slot, 2018);
    assert_eq!(map[0].level, 127);
    assert_eq!(map[0].pan, 128, "centre");
}

#[test]
fn a_factory_default_multisample_names_no_samples() {
    let record = multisample("INITIAL MSMPL", &[]);
    assert!(msmp::sample_slots(&record).is_empty());
    assert!(msmp::key_map(&record).is_empty());
}

#[test]
fn remapping_moves_every_key_that_names_a_moved_slot() {
    let mut record = multisample("T8_MSAMP", &[(0, 45, 2003), (46, 127, 2005)]);
    msmp::remap_sample_slots(&mut record, &BTreeMap::from([(2003, 3), (2005, 4)]));

    assert_eq!(msmp::sample_slots(&record), [3, 4]);
    assert_eq!(msmp::key_map(&record)[0].slot, 3);
    assert_eq!(msmp::key_map(&record)[46].slot, 4);
}

#[test]
fn a_record_too_short_yields_nothing() {
    assert!(msmp::sample_slots(&[0u8; 8]).is_empty());
}

#[test]
fn the_area_decides_where_sample_references_live() {
    let tone = tone_with_partials(&[(2, 7)]);
    assert_eq!(fantom::container::sample_slots_of(b"PATa", &tone), [7]);
    assert_eq!(fantom::container::sample_slots_of(b"INSa", &kit(&[(3, 2, 11)])), [11]);
    let ms = multisample("M", &[(0, 10, 5)]);
    assert_eq!(fantom::container::sample_slots_of(b"MSPa", &ms), [5]);
    assert_eq!(fantom::container::sample_slots_of(b"MLSa", &ms), [5]);
    assert!(fantom::container::sample_slots_of(b"SNAa", &tone).is_empty());

    let mut moved = tone.clone();
    fantom::container::remap_sample_slots_of(b"PATa", &mut moved, &BTreeMap::from([(7, 3)]));
    assert_eq!(pat::sample_slots(&moved), [3]);
    let mut untouched = tone.clone();
    fantom::container::remap_sample_slots_of(b"DCWa", &mut untouched, &BTreeMap::from([(7, 3)]));
    assert_eq!(untouched, tone);
}

// ---- sample ----------------------------------------------------------------------------------

fn svd_with(areas: &[(&[u8; 4], Vec<u8>)]) -> (Raw, Svd) {
    let mut bytes = Vec::new();
    bytes.extend_from_slice(&((14 + areas.len() * 16) as u16).to_le_bytes());
    bytes.extend_from_slice(b"SVD5");
    bytes.extend_from_slice(&[0u8; 10]);
    let mut offset = 0x10 + areas.len() * 16;
    for (tag, body) in areas {
        bytes.extend_from_slice(*tag);
        bytes.extend_from_slice(b"KY19");
        bytes.extend_from_slice(&(offset as u32).to_le_bytes());
        bytes.extend_from_slice(&(body.len() as u32).to_le_bytes());
        offset += body.len();
    }
    for (_, body) in areas {
        bytes.extend_from_slice(body);
    }
    let raw = Raw::from_bytes(bytes);
    let svd = Svd::parse(&raw).unwrap();
    (raw, svd)
}

fn slot_area(entries: &[(&str, u32)]) -> Vec<u8> {
    let mut area = Vec::new();
    area.extend_from_slice(&(entries.len() as u32).to_le_bytes());
    area.extend_from_slice(&(SLOT_LEN as u32).to_le_bytes());
    area.extend_from_slice(&16u32.to_le_bytes());
    area.extend_from_slice(&[0u8; 4]);
    for (name, end) in entries {
        let mut record = vec![0u8; SLOT_LEN];
        record[..16].fill(b' ');
        record[..name.len()].copy_from_slice(name.as_bytes());
        if !name.trim().is_empty() {
            record[IN_USE] = 1;
            record[LEVEL] = 127;
            record[ORIGINAL_KEY] = 60;
            record[END..END + 4].copy_from_slice(&end.to_le_bytes());
        }
        area.extend_from_slice(&record);
    }
    area
}

const SMPD_HEADER_LEN: usize = 0x24;

fn waveform_area(sections: &[(u32, &str, u32)]) -> Vec<u8> {
    let directory_len = (sections.len() + 1) * 8;
    let mut directory = Vec::new();
    let mut bodies = Vec::new();
    let mut offset = directory_len;
    for (slot, name, words) in sections {
        directory.extend_from_slice(&slot.to_le_bytes());
        directory.extend_from_slice(&(offset as u32).to_le_bytes());
        let mut section = vec![0u8; SMPD_HEADER_LEN];
        section[..4].copy_from_slice(b"SMPd");
        section[0x08..0x0c].copy_from_slice(&(words * 2).to_le_bytes());
        section[0x0c..0x10].copy_from_slice(&words.to_le_bytes());
        section[0x10..0x10 + name.len()].copy_from_slice(name.as_bytes());
        section[0x20..0x24].copy_from_slice(&48000u32.to_le_bytes());
        offset += section.len();
        bodies.extend_from_slice(&section);
    }
    directory.extend_from_slice(&u32::MAX.to_le_bytes());
    directory.extend_from_slice(&(offset as u32).to_le_bytes());

    let mut area = vec![0u8; 0x10];
    area.extend_from_slice(&directory);
    area.extend_from_slice(&bodies);
    area
}

#[test]
fn walks_the_waveform_directory_to_its_terminator() {
    let (raw, svd) = svd_with(&[(
        b"USDa",
        waveform_area(&[(0, "1 Beat It - C2", 556646), (2, "3 IML Whoa 1", 45556)]),
    )]);
    let bank = sample::read(&raw, &svd).unwrap();

    assert_eq!(bank.data.len(), 2);
    assert_eq!(bank.data[0].slot, 0);
    assert_eq!(bank.data[0].name, "1 Beat It - C2");
    assert_eq!(bank.data[0].frames(), 278323);
    assert_eq!(bank.data[0].sample_rate, 48000);
    let seconds = bank.data[0].frames() as f32 / bank.data[0].sample_rate as f32;
    assert!((seconds - 5.798).abs() < 0.01);
    assert_eq!(bank.data[1].slot, 2);
}

#[test]
fn reads_used_slots_and_skips_empty_ones() {
    let (raw, svd) = svd_with(&[(
        b"SMPa",
        slot_area(&[("1 Beat It - C2", 278323), ("", 0), ("3 IML Whoa 1", 22778)]),
    )]);
    let bank = sample::read(&raw, &svd).unwrap();

    assert_eq!(bank.slots.len(), 2);
    assert_eq!(bank.slots[0].index, 0);
    assert_eq!(bank.slots[0].name, "1 Beat It - C2");
    assert_eq!(bank.slots[0].end, 278323);
    assert_eq!(bank.slots[0].original_key, 60);
    assert!(bank.slots[0].in_use);
    assert_eq!(bank.slots[1].index, 2);
}

#[test]
fn the_waveform_directory_is_walked_to_its_terminator() {
    let (raw, svd) = svd_with(&[(
        b"USDa",
        waveform_area(&[(0, "1 Beat It - C2", 556646), (2, "3 IML Whoa 1", 45556)]),
    )]);
    let bank = sample::read(&raw, &svd).unwrap();

    assert_eq!(bank.data.len(), 2);
    assert_eq!(bank.data[0].slot, 0);
    assert_eq!(bank.data[0].name, "1 Beat It - C2");
    assert_eq!(bank.data[0].frames(), 278323);
    assert_eq!(bank.data[0].sample_rate, 48000);
    assert_eq!(bank.data[1].slot, 2);
}

#[test]
fn reports_slots_and_waveforms_that_disagree() {
    let (raw, svd) = svd_with(&[
        (b"SMPa", slot_area(&[("Recorded", 100)])),
        (b"USDa", waveform_area(&[(7, "Stray", 200)])),
    ]);
    let bank = sample::read(&raw, &svd).unwrap();

    let orphans = bank.orphans();
    assert_eq!(orphans.len(), 2);
    assert!(orphans[0].contains("no waveform data"));
    assert!(orphans[1].contains("unused slot 7"));
    assert_eq!(orphans[0], "slot 0 \"Recorded\" has no waveform data");
    assert_eq!(orphans[1], "waveform \"Stray\" points at unused slot 7");
}

fn multisample_area(records: &[Vec<u8>], record_size: usize) -> Vec<u8> {
    let mut area = Vec::new();
    area.extend_from_slice(&(records.len() as u32).to_le_bytes());
    area.extend_from_slice(&(record_size as u32).to_le_bytes());
    area.extend_from_slice(&16u32.to_le_bytes());
    area.extend_from_slice(&[0u8; 4]);
    for record in records {
        let mut r = record.clone();
        r.resize(record_size, 0);
        area.extend_from_slice(&r);
    }
    area
}

#[test]
fn an_edited_first_multisample_is_reported_and_does_not_taint_the_rest() {
    const LEN: usize = 1040;
    let mut edited = factory_multisample_record(LEN);
    edited[..16].copy_from_slice(b"My Multisample  ");

    let records = vec![edited, factory_multisample_record(LEN), factory_multisample_record(LEN)];
    let (raw, svd) = svd_with(&[(b"MLSa", multisample_area(&records, LEN))]);
    let bank = sample::read(&raw, &svd).unwrap();

    assert_eq!(bank.multisamples.len(), 1, "only the edited slot is reported");
    assert_eq!(bank.multisamples[0].index, 0);
    assert_eq!(bank.multisamples[0].name, "My Multisample");
}

#[test]
fn untouched_multisamples_are_all_recognised_as_factory_defaults() {
    const LEN: usize = 1040;
    let records = vec![factory_multisample_record(LEN); 4];
    let (raw, svd) = svd_with(&[(b"MLSa", multisample_area(&records, LEN))]);
    assert!(sample::read(&raw, &svd).unwrap().multisamples.is_empty());
}

#[test]
fn a_file_without_sample_areas_yields_an_empty_bank() {
    let (raw, svd) = svd_with(&[(b"PRFa", vec![0u8; 32])]);
    let bank = sample::read(&raw, &svd).unwrap();
    assert!(bank.is_empty());
    assert!(bank.orphans().is_empty());
}
