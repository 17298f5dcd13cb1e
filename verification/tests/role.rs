use fantom::container::{Kind, Raw};
use fantom::role::{of, Role};

const PREAMBLE: usize = 0x10;

/// A container with the given areas, each empty. Enough for classification, which reads the
/// area table and — only for the scene count — the `PRFa` header.
fn container_of(kind: Kind, tags: &[&[u8; 4]]) -> Raw {
    let mut file = Vec::new();
    match kind {
        Kind::Svd => {
            let header_size = (tags.len() * 16 + 14) as u16;
            file.extend_from_slice(&header_size.to_le_bytes());
            file.extend_from_slice(b"SVD5");
            file.resize(PREAMBLE, 0);
        }
        Kind::Svz => {
            file.extend_from_slice(b"SVZa");
            file.push(tags.len() as u8);
            file.resize(PREAMBLE, 0);
        }
    }
    // Every area points at the same empty region past the table; none is read for its content.
    let body = PREAMBLE + tags.len() * 16;
    for tag in tags {
        file.extend_from_slice(*tag);
        file.extend_from_slice(b"KY19");
        file.extend_from_slice(&(body as u32).to_le_bytes());
        file.extend_from_slice(&0u32.to_le_bytes());
    }
    Raw::from_bytes(file)
}

#[test]
fn an_unframeable_file_is_unknown() {
    assert_eq!(of(&Raw::from_bytes(vec![0; 8])), Role::Unknown);
}

/// The rule that matters: a backup dumps the sample bank whether or not the instrument holds
/// any audio, which is what makes its presence a statement about scope rather than content.
#[test]
fn the_sample_bank_marks_a_backup_even_when_it_holds_no_audio() {
    let backup = container_of(
        Kind::Svd,
        &[
            b"PRFa", b"PATa", b"RHYa", b"SMPa", b"MLSa", b"USDa", b"SYSa", b"DIFa",
        ],
    );
    assert_eq!(of(&backup), Role::Backup);
}

/// System settings travel with every export, so they must not tip the decision.
#[test]
fn common_areas_alone_do_not_make_a_backup() {
    let export = container_of(Kind::Svd, &[b"PRFa", b"PATa", b"RHYa", b"SYSa", b"DIFa"]);
    assert_eq!(of(&export), Role::SceneBank);

    // Nor do the engine banks an export legitimately carries for the tones it references.
    let with_engines = container_of(
        Kind::Svd,
        &[b"PRFa", b"DCWa", b"MDLa", b"ACBa", b"SYSa", b"DIFa"],
    );
    assert_eq!(of(&with_engines), Role::SceneBank);
}

#[test]
fn an_svd_without_a_performance_area_is_unknown() {
    assert_eq!(
        of(&container_of(Kind::Svd, &[b"PATa", b"SYSa"])),
        Role::Unknown
    );
}

#[test]
fn an_svz_is_a_tone_bank_when_it_carries_tone_records() {
    // A tone export may bring its own audio; the tone areas are what name it.
    let with_audio = container_of(Kind::Svz, &[b"DIFa", b"PATa", b"USPa", b"USDa"]);
    assert_eq!(of(&with_audio), Role::ToneBank);

    let drums = container_of(Kind::Svz, &[b"DIFa", b"RHYa", b"INSa"]);
    assert_eq!(of(&drums), Role::ToneBank);
}

#[test]
fn an_svz_of_audio_alone_is_a_sample_bank() {
    let samples = container_of(Kind::Svz, &[b"DIFa", b"USPa", b"USDa"]);
    assert_eq!(of(&samples), Role::SampleBank);
}

#[test]
fn the_spelling_round_trips() {
    for role in [
        Role::Backup,
        Role::SceneBank,
        Role::ToneBank,
        Role::SampleBank,
        Role::Unknown,
    ] {
        assert_eq!(Role::parse(role.as_str()), role);
    }
    assert_eq!(Role::parse("something else"), Role::Unknown);
}


#[test]
fn a_full_scene_bank_marks_a_backup_and_labels_are_short() {
    // A performance area declaring all 512 slots, with no sample bank beside it.
    let mut file = Vec::new();
    file.extend_from_slice(&(16u16 + 14).to_le_bytes());
    file.extend_from_slice(b"SVD5");
    file.resize(PREAMBLE, 0);
    file.extend_from_slice(b"PRFa");
    file.extend_from_slice(b"KY19");
    file.extend_from_slice(&0x20u32.to_le_bytes());
    file.extend_from_slice(&16u32.to_le_bytes());
    file.extend_from_slice(&512u32.to_le_bytes());
    file.extend_from_slice(&64u32.to_le_bytes());
    file.extend_from_slice(&[0u8; 8]);
    assert_eq!(of(&Raw::from_bytes(file.clone())), Role::Backup);
    file[0x20..0x24].copy_from_slice(&511u32.to_le_bytes());
    assert_eq!(of(&Raw::from_bytes(file)), Role::SceneBank);
    assert_eq!(Role::SceneBank.label(), "scenes");
    assert_eq!(Role::Unknown.label(), "?");
    assert_eq!(Role::SampleBank.as_str(), "sample-bank");
}
