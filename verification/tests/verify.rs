use fantom::checksum::crc32;
use fantom::container::{Raw, PREAMBLE_LEN};
use fantom::verify::{check, Problem};

/// An SVZ with one area whose records carry CRC-32 info words.
fn svz(records: &[Vec<u8>], record_size: usize, corrupt: bool) -> Raw {
    let info_len = 16 + records.len() * 4;
    let mut body = Vec::new();
    body.extend_from_slice(&(records.len() as u32).to_le_bytes());
    body.extend_from_slice(&(record_size as u32).to_le_bytes());
    body.extend_from_slice(&(info_len as u32).to_le_bytes());
    body.extend_from_slice(&[0u8; 4]);
    for (i, record) in records.iter().enumerate() {
        let mut sum = crc32(record);
        if corrupt && i == 1 {
            sum ^= 0xFF;
        }
        body.extend_from_slice(&sum.to_le_bytes());
    }
    for record in records {
        body.extend_from_slice(record);
    }

    let mut bytes = Vec::new();
    bytes.extend_from_slice(b"SVZa");
    bytes.push(1);
    bytes.push(3);
    bytes.extend_from_slice(b"KY019$");
    bytes.extend_from_slice(&[0u8; 4]);
    bytes.extend_from_slice(b"PATa");
    bytes.extend_from_slice(b"ZCOR");
    bytes.extend_from_slice(&((PREAMBLE_LEN + 16) as u32).to_le_bytes());
    bytes.extend_from_slice(&(body.len() as u32).to_le_bytes());
    bytes.extend_from_slice(&body);
    Raw::from_bytes(bytes)
}

fn records() -> Vec<Vec<u8>> {
    vec![vec![0xa1; 32], vec![0xb2; 32], vec![0xc3; 32]]
}

#[test]
fn a_sound_file_reports_no_problems() {
    let report = check(&svz(&records(), 32, false)).unwrap();
    assert!(report.is_ok(), "{:?}", report.problems);
    assert_eq!(report.checked, 3);
    assert_eq!(report.areas_with_checksums, 1);
}

#[test]
fn a_record_that_does_not_match_its_checksum_is_reported() {
    let report = check(&svz(&records(), 32, true)).unwrap();
    assert_eq!(report.problems.len(), 1);
    assert!(
        matches!(&report.problems[0], Problem::Checksum { record: 1, tag, .. } if tag == "PATa"),
        "{:?}",
        report.problems
    );
    // The other two still verified.
    assert_eq!(report.checked, 3);
}

/// An SVD5 file carries no per-record checksums; checking it must not invent problems.
#[test]
fn a_file_without_checksums_checks_clean() {
    let mut body = Vec::new();
    body.extend_from_slice(&1u32.to_le_bytes());
    body.extend_from_slice(&32u32.to_le_bytes());
    body.extend_from_slice(&16u32.to_le_bytes());
    body.extend_from_slice(&[0u8; 4]);
    body.extend_from_slice(&[7u8; 32]);

    let mut bytes = Vec::new();
    bytes.extend_from_slice(&30u16.to_le_bytes());
    bytes.extend_from_slice(b"SVD5");
    bytes.extend_from_slice(&[0u8; 10]);
    bytes.extend_from_slice(b"PRFa");
    bytes.extend_from_slice(b"KY19");
    bytes.extend_from_slice(&0x20u32.to_le_bytes());
    bytes.extend_from_slice(&(body.len() as u32).to_le_bytes());
    bytes.extend_from_slice(&body);

    let report = check(&Raw::from_bytes(bytes)).unwrap();
    assert!(report.is_ok(), "{:?}", report.problems);
    assert_eq!(report.areas_with_checksums, 0);
    assert_eq!(report.checked, 0);
}


#[test]
fn problems_describe_themselves() {
    let p = Problem::Checksum { tag: "PATa".into(), record: 1, stored: 0x1234abcd, computed: 0xff };
    assert_eq!(p.message(), "PATa[1]: checksum 1234abcd does not match its bytes (000000ff)");
    let t = Problem::Truncated { tag: "PRFa".into(), declared: 4, present: 2 };
    assert_eq!(t.message(), "PRFa: declares 4 records but only 2 are present");
    let a = Problem::AreaSize { tag: "RHYa".into(), declared: 48, actual: 50 };
    assert_eq!(a.message(), "RHYa: geometry says 48 bytes but the area table says 50");
}

#[test]
fn a_truncated_area_and_its_geometry_are_reported() {
    // Declares three 32-byte records but holds two and a half.
    let mut body = Vec::new();
    body.extend_from_slice(&3u32.to_le_bytes());
    body.extend_from_slice(&32u32.to_le_bytes());
    body.extend_from_slice(&16u32.to_le_bytes());
    body.extend_from_slice(&[0u8; 4]);
    body.extend_from_slice(&[7u8; 80]);
    let mut bytes = Vec::new();
    bytes.extend_from_slice(&30u16.to_le_bytes());
    bytes.extend_from_slice(b"SVD5");
    bytes.extend_from_slice(&[0u8; 10]);
    bytes.extend_from_slice(b"PRFa");
    bytes.extend_from_slice(b"KY19");
    bytes.extend_from_slice(&0x20u32.to_le_bytes());
    bytes.extend_from_slice(&(body.len() as u32).to_le_bytes());
    bytes.extend_from_slice(&body);
    let report = check(&Raw::from_bytes(bytes)).unwrap();
    assert_eq!(
        report.problems,
        vec![Problem::Truncated { tag: "PRFa".into(), declared: 3, present: 2 }]
    );
    assert!(!report.is_ok());
}

#[test]
fn a_check_report_reads_as_lines() {
    let (text, passed) = fantom::report::verify_text(&check(&svz(&records(), 32, false)).unwrap());
    assert!(passed);
    assert_eq!(text, "checked 3 record checksums across 1 area\nOK\n");

    let report = check(&svz(&records(), 32, true)).unwrap();
    let (text, passed) = fantom::report::verify_text(&report);
    assert!(!passed);
    assert!(text.starts_with("checked 3 record checksums across 1 area\n  problem: PATa[1]: checksum"), "{text}");
    assert!(text.ends_with("\n1 problem found"), "{text}");
}
