use fantom::address::{area_spec, dependency_tags, resolve, spec_for_tag, FIRST_PRESET_LSB};

#[test]
fn user_references_index_their_area_directly() {
    let (spec, index) = resolve(87, 0, 5).unwrap();
    assert_eq!(spec.tag, *b"PATa");
    assert_eq!(index, 5);
    assert_eq!(resolve(87, 3, 59).unwrap().1, 443);
    assert_eq!(resolve(87, 4, 34).unwrap().1, 546);
}

#[test]
fn factory_banks_are_not_records_in_the_file() {
    assert!(resolve(87, 92, 60).is_none());
    assert!(area_spec(87, FIRST_PRESET_LSB).is_none());
}

#[test]
fn the_two_engines_sharing_msb_105_are_told_apart_by_lsb() {
    assert_eq!(resolve(105, 0, 3).unwrap().0.tag, *b"ZAPa");
    assert_eq!(resolve(105, 0, 3).unwrap().1, 3);
    assert_eq!(resolve(105, 1, 3).unwrap().0.tag, *b"ZEPa");
    assert_eq!(resolve(105, 1, 3).unwrap().1, 3);
}

#[test]
fn encoding_round_trips_through_lsb_pages() {
    let pat = spec_for_tag(b"PATa").unwrap();
    assert_eq!(pat.encode(0).unwrap(), (0, 0));
    assert_eq!(pat.encode(127).unwrap(), (0, 127));
    assert_eq!(pat.encode(128).unwrap(), (1, 0));
    assert_eq!(pat.encode(546).unwrap(), (4, 34));
    for index in [0usize, 1, 127, 128, 546, 2047] {
        let (lsb, pc) = pat.encode(index).unwrap();
        assert_eq!(resolve(87, lsb, pc).unwrap().1, index);
    }
}

#[test]
fn engines_sharing_an_msb_cannot_overflow_into_each_other() {
    let zap = spec_for_tag(b"ZAPa").unwrap();
    assert_eq!(zap.capacity(), 128);
    assert_eq!(zap.encode(127).unwrap(), (0, 127));
    assert!(zap.encode(128).is_err());
}

#[test]
fn opaque_banks_address_a_full_backups_worth_of_records() {
    let mdl = spec_for_tag(b"MDLa").unwrap();
    assert!(mdl.opaque);
    assert_eq!(mdl.encode(1023).unwrap(), (7, 127));
    assert_eq!(resolve(97, 7, 127).unwrap().1, 1023);
}

#[test]
fn word_swapped_names_round_trip() {
    let acb = spec_for_tag(b"ACBa").unwrap();
    assert_eq!(acb.decode_name(b"tfoSS & ltbu  2e"), "Soft & Subtle2");
    assert_eq!(&acb.encode_name("Soft & Subtle2"), b"tfoSS & ltbu  2e");
    assert_eq!(acb.decode_name(&acb.encode_name("Soft & Subtle3")), "Soft & Subtle3");

    let pat = spec_for_tag(b"PATa").unwrap();
    assert_eq!(pat.decode_name(b"Africa Brass    "), "Africa Brass");
    assert_eq!(&pat.encode_name("Africa Brass"), b"Africa Brass    ");
}

#[test]
fn drum_kits_carry_their_instrument_area_along() {
    let rhy = spec_for_tag(b"RHYa").unwrap();
    assert_eq!(rhy.paired(), vec![*b"RHYa", *b"INSa"]);
    assert!(dependency_tags().iter().any(|tag| *tag == *b"INSa"));
}

#[test]
fn a_name_longer_than_the_field_is_cut_and_a_tag_reads_as_text() {
    let pat = spec_for_tag(b"PATa").unwrap();
    assert_eq!(&pat.encode_name("0123456789abcdefXYZ"), b"0123456789abcdef");
    assert_eq!(pat.tag_str(), "PATa");
    assert_eq!(pat.paired(), vec![*b"PATa"]);
    assert_eq!(
        dependency_tags(),
        vec![
            *b"PATa", *b"RHYa", *b"INSa", *b"VTWa", *b"SNAa", *b"ZAPa", *b"ZEPa", *b"ACBa",
            *b"DCWa", *b"MDLa"
        ]
    );
    // An engine with no user bank in the table resolves to nothing.
    assert!(resolve(93, 2, 0).is_none());
    assert!(spec_for_tag(b"XXXX").is_none());
    match spec_for_tag(b"ZEPa").unwrap().encode(200) {
        Err(fantom::Error::TooManyRecords { tag, maximum }) => {
            assert_eq!(tag, *b"ZEPa");
            assert_eq!(maximum, 128);
        }
        other => panic!("{other:?}"),
    }
}
