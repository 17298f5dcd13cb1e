use fantom::container::{Raw, Svd};
use fantom::samplebank::export_samples;
use fantom::Error;

fn build_svd(areas: &[(&[u8; 4], Vec<u8>)]) -> Raw {
    let header_size = 14 + areas.len() * 16;
    let mut bytes = Vec::new();
    bytes.extend_from_slice(&(header_size as u16).to_le_bytes());
    bytes.extend_from_slice(b"SVD5");
    bytes.extend_from_slice(&[0u8; 10]);
    let mut offset = 0x10 + areas.len() * 16;
    for (tag, body) in areas {
        bytes.extend_from_slice(*tag);
        bytes.extend_from_slice(b"KY19");
        bytes.extend_from_slice(&(offset as u32).to_le_bytes());
        bytes.extend_from_slice(&(body.len() as u32).to_le_bytes());
        offset += body.len();
    }
    for (_, body) in areas {
        bytes.extend_from_slice(body);
    }
    Raw::from_bytes(bytes)
}

fn smpa_record(name: &str, fill: u8) -> Vec<u8> {
    let mut r = vec![0u8; 84];
    r[..16].fill(b' ');
    r[..name.len()].copy_from_slice(name.as_bytes());
    for (i, b) in r[0x40..0x54].iter_mut().enumerate() {
        *b = fill + i as u8;
    }
    r
}

fn smpa_area(records: &[Vec<u8>]) -> Vec<u8> {
    let mut a = Vec::new();
    a.extend_from_slice(&(records.len() as u32).to_le_bytes());
    a.extend_from_slice(&84u32.to_le_bytes());
    a.extend_from_slice(&16u32.to_le_bytes());
    a.extend_from_slice(&[0u8; 4]);
    for r in records {
        a.extend_from_slice(r);
    }
    a
}

const SECTION: usize = 0x100;

fn section(name: &str, flags: u32, id: u32, audio: u8) -> Vec<u8> {
    let mut s = vec![0u8; SECTION];
    s[..4].copy_from_slice(b"SMPd");
    s[4..8].copy_from_slice(&flags.to_le_bytes());
    s[8..12].copy_from_slice(&((SECTION - 64) as u32).to_le_bytes());
    s[12..16].copy_from_slice(&0x1234u32.to_le_bytes());
    s[16..32].fill(b' ');
    s[16..16 + name.len()].copy_from_slice(name.as_bytes());
    s[32..36].copy_from_slice(&44100u32.to_le_bytes());
    s[36..40].copy_from_slice(&id.to_le_bytes());
    s[0x80..].fill(audio);
    s
}

/// A backup `USDa`: its header, the `{slot, offset}` directory to its terminator, the sections.
fn usda_area(sections: &[(u32, Vec<u8>)]) -> Vec<u8> {
    let mut a = vec![0u8; 16];
    let dir_len = (sections.len() + 1) * 8;
    let mut offset = dir_len;
    for (slot, s) in sections {
        a.extend_from_slice(&slot.to_le_bytes());
        a.extend_from_slice(&(offset as u32).to_le_bytes());
        offset += s.len();
    }
    a.extend_from_slice(&u32::MAX.to_le_bytes());
    a.extend_from_slice(&0u32.to_le_bytes());
    for (_, s) in sections {
        a.extend_from_slice(s);
    }
    a
}

fn backup() -> Raw {
    build_svd(&[
        (b"SMPa", smpa_area(&[smpa_record("Kick", 0x10), smpa_record("Snare", 0x40)])),
        (
            b"USDa",
            usda_area(&[(0, section("Kick", 0, 0x77, 0xaa)), (1, section("Snare", 0x4000_0000, 0x88, 0xbb))]),
        ),
    ])
}

fn area_bytes(raw: &Raw, tag: &[u8; 4]) -> Vec<u8> {
    let svd = Svd::parse(raw).unwrap();
    svd.area_bytes(raw, svd.area(tag).unwrap()).unwrap().to_vec()
}

#[test]
fn a_sample_file_carries_the_chosen_samples_numbered_from_zero() {
    let out = export_samples(&backup(), &[1]).unwrap();
    let svd = Svd::parse(&out).unwrap();
    let tags: Vec<[u8; 4]> = svd.areas.iter().map(|a| a.tag).collect();
    assert_eq!(tags, vec![*b"DIFa", *b"USPa", *b"USDa"]);
    assert_eq!(&out.bytes()[..4], b"SVZa");
    assert_eq!(out.bytes()[4], 3);
    assert_eq!(&out.bytes()[6..12], b"KY019$");

    let dif = area_bytes(&out, b"DIFa");
    assert_eq!(dif.len(), 16 + 32);
    assert!(dif[16..].iter().all(|&b| b == 0));

    let usp = area_bytes(&out, b"USPa");
    assert_eq!(u32::from_le_bytes(usp[0..4].try_into().unwrap()), 1);
    assert_eq!(u32::from_le_bytes(usp[4..8].try_into().unwrap()), 64);
    let record = &usp[16..80];
    assert_eq!(&record[..5], b"Snare");
    let params: Vec<u8> = (0..20).map(|i| 0x40 + i as u8).collect();
    assert_eq!(&record[0x14..0x28], params.as_slice());
    assert_eq!(record[0x2c], 0x02);
    assert_eq!(record[0x32], 0xe0);

    let usd = area_bytes(&out, b"USDa");
    assert_eq!(u32::from_le_bytes(usd[0..4].try_into().unwrap()), 1);
    assert_eq!(u32::from_le_bytes(usd[16..20].try_into().unwrap()), 0, "numbered from zero");
    let at = u32::from_le_bytes(usd[20..24].try_into().unwrap()) as usize;
    let len = u32::from_le_bytes(usd[24..28].try_into().unwrap()) as usize;
    assert_eq!(u32::from_le_bytes(usd[28..32].try_into().unwrap()), 0x88, "the section word travels");
    assert_eq!(len, 0x60 + (SECTION - 0x80));
    let sec = &usd[at..at + len];
    assert_eq!(&sec[..4], b"SMPd");
    assert_eq!(u32::from_le_bytes(sec[4..8].try_into().unwrap()), 0x1234);
    assert_eq!(u32::from_le_bytes(sec[8..12].try_into().unwrap()), 0x0001_1002);
    assert_eq!(u32::from_le_bytes(sec[12..16].try_into().unwrap()), 44100);
    assert_eq!(&sec[16..21], b"Snare");
    assert!(sec[0x60..].iter().all(|&b| b == 0xbb));

    let report = fantom::verify::check(&out).unwrap();
    assert!(report.problems.is_empty());
}

#[test]
fn a_sample_without_the_carried_bit_gets_the_base_flags() {
    let out = export_samples(&backup(), &[0, 1]).unwrap();
    let usd = area_bytes(&out, b"USDa");
    assert_eq!(u32::from_le_bytes(usd[0..4].try_into().unwrap()), 2);
    let at = u32::from_le_bytes(usd[20..24].try_into().unwrap()) as usize;
    assert_eq!(u32::from_le_bytes(usd[at + 8..at + 12].try_into().unwrap()), 0x0000_1002);
    assert_eq!(u32::from_le_bytes(usd[32..36].try_into().unwrap()), 1);
}

#[test]
fn what_a_sample_export_cannot_do_is_refused() {
    assert_eq!(export_samples(&backup(), &[]).unwrap_err(), Error::NoSampleSlots);
    assert_eq!(
        export_samples(&backup(), &[5]).unwrap_err(),
        Error::SampleSlotOutOfRange { slot: 6, count: 2 }
    );
    let no_audio = build_svd(&[(b"SMPa", smpa_area(&[smpa_record("Kick", 0)]))]);
    assert_eq!(export_samples(&no_audio, &[0]).unwrap_err(), Error::NoWaveform { slot: 1 });
    let no_slots = build_svd(&[(b"PRFa", smpa_area(&[]))]);
    let error = export_samples(&no_slots, &[0]).unwrap_err();
    assert_eq!(error, Error::NoSampleArea);
    assert!(error.message().contains("only a full backup carries user sample audio"));
}
