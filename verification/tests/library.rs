use fantom::library::{
    check_fantom_name, content_hash, identity_hash, AssetKind, FileStatus, Origin, Plays, Query,
};
use fantom::Error;

#[test]
fn fantom_names_are_checked_against_the_device() {
    assert!(check_fantom_name("Ballad Rhodes").is_ok());
    assert!(check_fantom_name("").is_err());
    assert!(check_fantom_name("this name is far too long").is_err());
    assert!(check_fantom_name("café").is_err());
}

#[test]
fn a_checked_name_loses_its_trailing_spaces_and_a_blank_one_says_why() {
    assert_eq!(check_fantom_name("Ballad Rhodes   ").unwrap(), "Ballad Rhodes");
    let blank = check_fantom_name("   ").unwrap_err();
    assert_eq!(blank, Error::Rejected { message: "name cannot be empty".to_string() });
    assert_eq!(blank.message(), "name cannot be empty");
    let long = check_fantom_name("this name is far too long").unwrap_err().message();
    assert!(long.starts_with("unrecognized structure: "), "{long}");
}

#[test]
fn labels_read_back_as_what_wrote_them() {
    for kind in [AssetKind::Scene, AssetKind::Tone] {
        assert_eq!(AssetKind::parse(kind.as_str()), Some(kind));
    }
    assert_eq!(AssetKind::parse("sample"), None);
    assert_eq!(AssetKind::Scene.as_str(), "scene");

    for status in [FileStatus::Valid, FileStatus::Invalid] {
        assert_eq!(FileStatus::parse(status.as_str()), status);
    }
    assert_eq!(FileStatus::Valid.as_str(), "ok");
    assert_eq!(FileStatus::parse("garbled"), FileStatus::Valid);

    for origin in [Origin::Factory, Origin::User] {
        assert_eq!(Origin::parse(origin.as_str()), origin);
    }
    assert_eq!(Origin::parse(""), Origin::User);
}

#[test]
fn only_a_facet_narrows_by_facet() {
    let plain = Query { search: "rhodes".into(), tags: vec!["ballad".into()], ..Query::default() };
    assert!(!plain.narrows_by_facet());
    assert!(Query { engines: vec!["ZEN-Core".into()], ..Query::default() }.narrows_by_facet());
    assert!(Query { plays: Some(Plays::NeedsYours), ..Query::default() }.narrows_by_facet());
    assert!(Query { hide_uninstalled_expansions: true, ..Query::default() }.narrows_by_facet());
}

#[test]
fn a_content_hash_is_the_sha256_of_the_bytes_in_lowercase_hex() {
    assert_eq!(content_hash(b""), "e3b0c44298fc1c149afbf4c8996fb92427ae41e4649b934ca495991b7852b855");
    assert_eq!(content_hash(b"abc"), "ba7816bf8f01cfea414140de5dae2223b00361a396177a9cb410ff61f20015ad");
}

#[test]
fn an_identity_hash_covers_kind_area_and_bytes_in_turn() {
    // "tone" + "PATa" + "abc" hashed as one run of bytes.
    assert_eq!(identity_hash("tone", b"PATa", b"abc"), content_hash(b"tonePATaabc"));
    assert_ne!(identity_hash("tone", b"PATa", b"abc"), identity_hash("scene", b"PATa", b"abc"));
    assert_ne!(identity_hash("tone", b"PATa", b"abc"), identity_hash("tone", b"RHYa", b"abc"));
}
