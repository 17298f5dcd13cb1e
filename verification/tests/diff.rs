use fantom::container::Raw;
use fantom::diff::{compare, Finding, Side};

/// An area to build: tag, record size, and its records.
type AreaDef<'a> = (&'a [u8; 4], usize, Vec<Vec<u8>>);

/// Build an SVD whose areas each hold the given records.
fn svd(areas: &[AreaDef<'_>]) -> Raw {
    let header_len = 14 + areas.len() * 16;
    let mut table = Vec::new();
    let mut bodies = Vec::new();
    let mut at = 0x10 + areas.len() * 16;

    for (tag, record_size, records) in areas {
        let mut body = Vec::new();
        body.extend_from_slice(&(records.len() as u32).to_le_bytes());
        body.extend_from_slice(&(*record_size as u32).to_le_bytes());
        body.extend_from_slice(&16u32.to_le_bytes());
        body.extend_from_slice(&[0u8; 4]);
        for record in records {
            let mut r = record.clone();
            r.resize(*record_size, 0);
            body.extend_from_slice(&r);
        }
        table.extend_from_slice(*tag);
        table.extend_from_slice(b"KY19");
        table.extend_from_slice(&(at as u32).to_le_bytes());
        table.extend_from_slice(&(body.len() as u32).to_le_bytes());
        at += body.len();
        bodies.extend_from_slice(&body);
    }

    let mut b = Vec::new();
    b.extend_from_slice(&(header_len as u16).to_le_bytes());
    b.extend_from_slice(b"SVD5");
    b.extend_from_slice(&[0u8; 10]);
    b.extend_from_slice(&table);
    b.extend_from_slice(&bodies);
    Raw::from_bytes(b)
}

fn named(name: &str) -> Vec<u8> {
    let mut r = vec![b' '; 32];
    r[..name.len()].copy_from_slice(name.as_bytes());
    r
}

#[test]
fn locates_a_single_changed_byte_in_a_record() {
    let a = svd(&[(b"DCWa", 32, vec![named("Stage Grand3")])]);
    let b = svd(&[(b"DCWa", 32, vec![named("Stage Grand4")])]);
    let findings = compare(&a, &b).unwrap();

    assert_eq!(findings.len(), 1);
    let Finding::Record { tag, record, runs } = &findings[0] else {
        panic!("expected a record diff, got {:?}", findings[0]);
    };
    assert_eq!(tag, "DCWa");
    assert_eq!(*record, 0);
    assert_eq!(runs.len(), 1);
    assert_eq!(runs[0].offset, 11);
    assert_eq!(runs[0].left, b"3");
    assert_eq!(runs[0].right, b"4");
}

#[test]
fn splits_non_adjacent_changes_into_separate_runs() {
    let mut left = named("Tone");
    let mut right = named("Tone");
    left[20] = 1;
    right[20] = 2;
    left[21] = 3;
    right[21] = 4;
    left[25] = 5;
    right[25] = 6;

    let findings = compare(
        &svd(&[(b"MDLa", 32, vec![left])]),
        &svd(&[(b"MDLa", 32, vec![right])]),
    )
    .unwrap();

    let Finding::Record { runs, .. } = &findings[0] else {
        panic!("expected a record diff");
    };
    assert_eq!(runs.len(), 2);
    assert_eq!((runs[0].offset, runs[0].left.len()), (20, 2));
    assert_eq!((runs[1].offset, runs[1].left.len()), (25, 1));
}

/// The point of aligning per record: a size change must not smear every later byte.
#[test]
fn aligns_records_when_one_file_has_more_of_them() {
    let a = svd(&[(b"DCWa", 32, vec![named("Stage Grand4")])]);
    let b = svd(&[(
        b"DCWa",
        32,
        vec![named("Stage Grand4"), named("Stage Grand4 3")],
    )]);
    let findings = compare(&a, &b).unwrap();

    assert!(matches!(
        findings.as_slice(),
        [
            Finding::RecordCountDiffers {
                left: 1,
                right: 2,
                ..
            },
            Finding::RecordOnlyIn {
                side: Side::Right,
                record: 1,
                ..
            },
        ]
    ));
    assert_eq!(findings[1].tag(), "DCWa");
}

#[test]
fn reports_areas_present_in_only_one_file() {
    let a = svd(&[(b"PRFa", 32, vec![named("Scene")])]);
    let b = svd(&[
        (b"PRFa", 32, vec![named("Scene")]),
        (b"ACBa", 32, vec![named("Soft & Subtle2")]),
    ]);
    let findings = compare(&a, &b).unwrap();

    assert_eq!(findings.len(), 1);
    assert!(matches!(
        &findings[0],
        Finding::AreaOnlyIn {
            side: Side::Right,
            records: 1,
            ..
        }
    ));
    assert_eq!(findings[0].tag(), "ACBa");
}

/// An area that is not a record table (a zeroed `DIFa`, say) must not abort the comparison of
/// everything else — it falls back to a byte-level diff of that area.
#[test]
fn an_area_that_is_not_a_record_table_falls_back_to_comparing_bytes() {
    fn with_raw_difa(scene: &str, difa: &[u8]) -> Raw {
        let mut bytes = Vec::new();
        bytes.extend_from_slice(&(14u16 + 32).to_le_bytes());
        bytes.extend_from_slice(b"SVD5");
        bytes.extend_from_slice(&[0u8; 10]);
        let prfa = {
            let mut b = vec![0u8; 16];
            b[0..4].copy_from_slice(&1u32.to_le_bytes());
            b[4..8].copy_from_slice(&32u32.to_le_bytes());
            b.extend_from_slice(&named(scene)[..32]);
            b
        };
        let first = 0x10 + 32;
        for (tag, body) in [(b"PRFa", &prfa), (b"DIFa", &difa.to_vec())] {
            bytes.extend_from_slice(tag);
            bytes.extend_from_slice(b"KY19");
            let at = if tag == b"PRFa" {
                first
            } else {
                first + prfa.len()
            };
            bytes.extend_from_slice(&(at as u32).to_le_bytes());
            bytes.extend_from_slice(&(body.len() as u32).to_le_bytes());
        }
        bytes.extend_from_slice(&prfa);
        bytes.extend_from_slice(difa);
        Raw::from_bytes(bytes)
    }

    // A DIFa of all zeros decodes as record_size = 0, which is not a parseable record table.
    let a = with_raw_difa("Scene", &[0u8; 32]);
    let mut zeros = [0u8; 32];
    zeros[20] = 0x99;
    let b = with_raw_difa("Scene", &zeros);

    let findings = compare(&a, &b).unwrap();
    assert_eq!(findings.len(), 1, "{findings:?}");
    let Finding::AreaBytes { tag, runs } = &findings[0] else {
        panic!("expected a byte-level area diff, got {:?}", findings[0]);
    };
    assert_eq!(tag, "DIFa");
    assert_eq!(runs.len(), 1);
    assert_eq!(runs[0].offset, 20);
    assert_eq!(runs[0].right, [0x99]);
}

#[test]
fn identical_files_report_nothing() {
    let a = svd(&[(b"PRFa", 32, vec![named("Scene")])]);
    let b = svd(&[(b"PRFa", 32, vec![named("Scene")])]);
    assert!(compare(&a, &b).unwrap().is_empty());
}


#[test]
fn a_finding_counts_its_changed_bytes_and_sides_have_labels() {
    let mut left = named("Tone");
    let mut right = named("Tone");
    left[20] = 1;
    right[20] = 2;
    left[21] = 3;
    right[21] = 4;
    left[25] = 5;
    right[25] = 6;
    let findings = compare(
        &svd(&[(b"MDLa", 32, vec![left])]),
        &svd(&[(b"MDLa", 32, vec![right])]),
    )
    .unwrap();
    assert_eq!(findings[0].changed_bytes(), 3);
    assert_eq!(findings[0].tag(), "MDLa");
    let Finding::Record { runs, .. } = &findings[0] else {
        panic!("expected a record diff");
    };
    // The record starts after the 16-byte area header, which follows the area table.
    assert_eq!(runs[0].left_at, 0x20 + 0x10 + 20);
    assert_eq!(runs[0].left, vec![1, 3]);
    assert_eq!(runs[0].right, vec![2, 4]);
    assert_eq!(Side::Left.label(), "left");
    assert_eq!(Side::Right.label(), "right");
    let only = Finding::AreaOnlyIn { tag: "PRFa".into(), side: Side::Left, size: 4, records: 0 };
    assert_eq!(only.changed_bytes(), 0);
}

#[test]
fn a_record_size_change_is_reported_instead_of_bytes() {
    let a = svd(&[(b"DCWa", 32, vec![named("Stage Grand4")])]);
    let b = svd(&[(b"DCWa", 48, vec![named("Stage Grand4")])]);
    let findings = compare(&a, &b).unwrap();
    assert_eq!(
        findings,
        vec![Finding::RecordSizeDiffers { tag: "DCWa".into(), left: 32, right: 48 }]
    );
}

#[test]
fn a_file_that_is_not_a_container_cannot_be_compared() {
    let a = svd(&[(b"DCWa", 32, vec![named("Stage Grand4")])]);
    assert!(compare(&a, &Raw::from_bytes(vec![1, 2, 3])).is_err());
}
