use std::collections::BTreeMap;

use fantom::container::pat::{PARTIAL_COUNT, PARTIAL_STRIDE, WAVE_GROUP_OFFSET, WAVE_NUMBER_OFFSET};
use fantom::container::{Raw, Svd};
use fantom::convert::{dense, export_tones};
use fantom::Error;

fn build_svd(areas: &[(&[u8; 4], Vec<u8>)]) -> Raw {
    let header_size = 14 + areas.len() * 16;
    let mut bytes = Vec::new();
    bytes.extend_from_slice(&(header_size as u16).to_le_bytes());
    bytes.extend_from_slice(b"SVD5");
    bytes.extend_from_slice(&[0u8; 10]);
    let mut offset = 0x10 + areas.len() * 16;
    for (tag, body) in areas {
        bytes.extend_from_slice(*tag);
        bytes.extend_from_slice(b"KY19");
        bytes.extend_from_slice(&(offset as u32).to_le_bytes());
        bytes.extend_from_slice(&(body.len() as u32).to_le_bytes());
        offset += body.len();
    }
    for (_, body) in areas {
        bytes.extend_from_slice(body);
    }
    Raw::from_bytes(bytes)
}

fn table(records: &[Vec<u8>], size: usize) -> Vec<u8> {
    let mut a = Vec::new();
    a.extend_from_slice(&(records.len() as u32).to_le_bytes());
    a.extend_from_slice(&(size as u32).to_le_bytes());
    a.extend_from_slice(&16u32.to_le_bytes());
    a.extend_from_slice(&[0u8; 4]);
    for r in records {
        a.extend_from_slice(r);
    }
    a
}

const TONE_LEN: usize = PARTIAL_COUNT * PARTIAL_STRIDE + WAVE_NUMBER_OFFSET + 2;

fn tone(name: &str, partials: &[(u8, u16)]) -> Vec<u8> {
    let mut record = vec![0u8; TONE_LEN];
    record[..name.len()].copy_from_slice(name.as_bytes());
    for (partial, &(group, number)) in partials.iter().enumerate() {
        let base = partial * PARTIAL_STRIDE;
        record[WAVE_GROUP_OFFSET + base] = group;
        record[WAVE_NUMBER_OFFSET + base..WAVE_NUMBER_OFFSET + base + 2].copy_from_slice(&number.to_le_bytes());
    }
    record
}

fn smpa_record(name: &str, fill: u8) -> Vec<u8> {
    let mut r = vec![0u8; 84];
    r[..16].fill(b' ');
    r[..name.len()].copy_from_slice(name.as_bytes());
    for (i, b) in r[0x40..0x54].iter_mut().enumerate() {
        *b = fill + i as u8;
    }
    r
}

const SECTION: usize = 0x100;

fn section(name: &str, id: u32, audio: u8) -> Vec<u8> {
    let mut s = vec![0u8; SECTION];
    s[..4].copy_from_slice(b"SMPd");
    s[8..12].copy_from_slice(&((SECTION - 64) as u32).to_le_bytes());
    s[12..16].copy_from_slice(&0x1234u32.to_le_bytes());
    s[16..32].fill(b' ');
    s[16..16 + name.len()].copy_from_slice(name.as_bytes());
    s[32..36].copy_from_slice(&44100u32.to_le_bytes());
    s[36..40].copy_from_slice(&id.to_le_bytes());
    s[0x80..].fill(audio);
    s
}

fn usda_area(sections: &[(u32, Vec<u8>)]) -> Vec<u8> {
    let mut a = vec![0u8; 16];
    let mut offset = (sections.len() + 1) * 8;
    for (slot, s) in sections {
        a.extend_from_slice(&slot.to_le_bytes());
        a.extend_from_slice(&(offset as u32).to_le_bytes());
        offset += s.len();
    }
    a.extend_from_slice(&u32::MAX.to_le_bytes());
    a.extend_from_slice(&0u32.to_le_bytes());
    for (_, s) in sections {
        a.extend_from_slice(s);
    }
    a
}

/// A backup whose first tone plays user slot 2 ("Snare") and whose second plays none.
fn backup() -> Raw {
    build_svd(&[
        (b"PATa", table(&[tone("Gong", &[(2, 2)]), tone("Piano", &[(0, 383)])], TONE_LEN)),
        (b"SMPa", table(&[smpa_record("Kick", 0x10), smpa_record("Snare", 0x40)], 84)),
        (b"USDa", usda_area(&[(0, section("Kick", 0x77, 0xaa)), (1, section("Snare", 0x88, 0xbb))])),
    ])
}

fn area_bytes(raw: &Raw, tag: &[u8; 4]) -> Vec<u8> {
    let svd = Svd::parse(raw).unwrap();
    svd.area_bytes(raw, svd.area(tag).unwrap()).unwrap().to_vec()
}

#[test]
fn an_engine_whose_samples_cannot_be_followed_is_refused() {
    let nothing = Raw::from_bytes(Vec::new());

    let error = export_tones(&nothing, b"ACBa", &[0]).unwrap_err().message();
    assert!(error.contains("not decoded"), "{error}");

    let error = export_tones(&nothing, b"PRFa", &[0]).unwrap_err().message();
    assert!(error.contains("not a user tone area"), "{error}");

    assert!(export_tones(&nothing, b"PATa", &[]).is_err());
}

#[test]
fn what_travels_is_numbered_densely_from_one() {
    assert_eq!(dense(&[2001, 2002, 2018]), BTreeMap::from([(2001, 1), (2002, 2), (2018, 3)]));
    assert!(dense(&[]).is_empty());
}

#[test]
fn an_exported_tone_carries_the_audio_it_plays_renumbered_from_one() {
    let out = export_tones(&backup(), b"PATa", &[0]).unwrap();
    let svd = Svd::parse(&out).unwrap();
    let tags: Vec<[u8; 4]> = svd.areas.iter().map(|a| a.tag).collect();
    assert_eq!(tags, vec![*b"DIFa", *b"PATa", *b"USPa", *b"USDa"]);
    assert_eq!(&out.bytes()[..4], b"SVZa");

    let pata = area_bytes(&out, b"PATa");
    assert_eq!(u32::from_le_bytes(pata[0..4].try_into().unwrap()), 1);
    let record = &pata[16..16 + TONE_LEN];
    assert_eq!(&record[..4], b"Gong");
    assert_eq!(record[WAVE_GROUP_OFFSET], 2);
    assert_eq!(u16::from_le_bytes([record[WAVE_NUMBER_OFFSET], record[WAVE_NUMBER_OFFSET + 1]]), 1);

    let usp = area_bytes(&out, b"USPa");
    assert_eq!(u32::from_le_bytes(usp[0..4].try_into().unwrap()), 1);
    assert_eq!(&usp[16..21], b"Snare");

    let usd = area_bytes(&out, b"USDa");
    assert_eq!(u32::from_le_bytes(usd[0..4].try_into().unwrap()), 1);
    assert_eq!(u32::from_le_bytes(usd[28..32].try_into().unwrap()), 0x88);

    let report = fantom::verify::check(&out).unwrap();
    assert!(report.problems.is_empty());
}

#[test]
fn a_tone_that_plays_no_user_audio_travels_alone() {
    let out = export_tones(&backup(), b"PATa", &[1]).unwrap();
    let svd = Svd::parse(&out).unwrap();
    let tags: Vec<[u8; 4]> = svd.areas.iter().map(|a| a.tag).collect();
    assert_eq!(tags, vec![*b"DIFa", *b"PATa"]);
    let pata = area_bytes(&out, b"PATa");
    assert_eq!(&pata[16..21], b"Piano");
}

#[test]
fn what_a_tone_export_cannot_do_is_refused() {
    assert_eq!(export_tones(&backup(), b"PATa", &[]).unwrap_err(), Error::NoToneIndexes);
    assert_eq!(
        export_tones(&backup(), b"PATa", &[5]).unwrap_err(),
        Error::ExportToneOutOfRange { tag: *b"PATa", index: 5, count: 2 }
    );
    assert_eq!(
        export_tones(&backup(), b"RHYa", &[0]).unwrap_err(),
        Error::NoSuchArea { tag: *b"RHYa" }
    );
    let svz = export_tones(&backup(), b"PATa", &[1]).unwrap();
    assert_eq!(export_tones(&svz, b"PATa", &[0]).unwrap_err(), Error::AlreadySvz);
    let no_audio = build_svd(&[(b"PATa", table(&[tone("Gong", &[(2, 2)])], TONE_LEN))]);
    assert_eq!(export_tones(&no_audio, b"PATa", &[0]).unwrap_err(), Error::NoSampleArea);
}
