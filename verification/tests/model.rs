use fantom::model::{KeyboardGroup, Scene, ToneRef, ToneType, Zone, ZoneState};


fn zone(number: u8, enabled: bool) -> Zone {
    Zone {
        number,
        enabled,
        muted: false,
        tone: ToneRef::new(87, 93, 60, None),
        key_low: 0,
        key_high: 127,
        velocity_low: 1,
        velocity_high: 127,
        level: 100,
        pan: 0,
        transpose: 0,
        octave: 0,
        midi_channel: 0,
        arpeggio: false,
    }
}

fn scene(zones: Vec<Zone>, groups: Vec<KeyboardGroup>) -> Scene {
    Scene {
        name: "Test".into(),
        comment: String::new(),
        tempo: 12000,
        level: 100,
        zones,
        groups,
    }
}

#[test]
fn an_untouched_zone_is_told_from_one_that_was_silenced() {
    let untouched = zone(0, false);
    assert!(untouched.is_at_factory_default());

    // One setting away from the default is enough: somebody configured this and switched it off.
    let mut silenced = zone(1, false);
    silenced.key_high = 71;
    assert!(!silenced.is_at_factory_default());

    let scene = scene(vec![untouched, silenced], Vec::new());
    assert_eq!(scene.zone_state(&scene.zones[0]), ZoneState::Unused);
    assert_eq!(scene.zone_state(&scene.zones[1]), ZoneState::Off);
}

#[test]
fn a_grouped_zone_is_part_of_the_performance_though_switched_off() {
    let mut split = zone(2, false);
    split.key_low = 60;
    let scene = scene(
        vec![zone(0, true), zone(1, false), split],
        vec![KeyboardGroup {
            number: 2,
            zones: vec![1, 3],
        }],
    );

    assert_eq!(scene.zone_state(&scene.zones[0]), ZoneState::On);
    // Zone 2 is in no group and never configured.
    assert_eq!(scene.zone_state(&scene.zones[1]), ZoneState::Unused);
    // Zone 3 is off now, but group 2 switches it on.
    assert_eq!(scene.zone_state(&scene.zones[2]), ZoneState::Grouped);
    assert_eq!(scene.groups_containing(3), vec![2]);
    assert!(scene.groups_containing(2).is_empty());
}

#[test]
fn only_an_unused_zone_is_left_out_of_a_package() {
    // Everything a control can bring back has to travel with the scene.
    assert!(ZoneState::On.is_played());
    assert!(ZoneState::Muted.is_played());
    assert!(ZoneState::Grouped.is_played());
    assert!(ZoneState::Off.is_played());
    assert!(!ZoneState::Unused.is_played());
}

#[test]
fn a_muted_zone_is_still_switched_on() {
    let mut muted = zone(0, true);
    muted.muted = true;
    let scene = scene(vec![muted], Vec::new());
    assert_eq!(scene.zone_state(&scene.zones[0]), ZoneState::Muted);
}



#[test]
fn classifies_documented_engine_and_bank_addresses() {
    let cases = [
        (86, 64, ToneType::Drum, Some("PR-A")),
        (89, 65, ToneType::SnA, Some("PRST")),
        (90, 64, ToneType::VPiano, Some("PRST")),
        (91, 65, ToneType::Vtw, Some("PRST")),
        (97, 7, ToneType::Model, None),
        (103, 9, ToneType::VPiano, None),
        (105, 64, ToneType::SnAp, Some("EXSN01")),
        (105, 65, ToneType::SnEp, Some("EXSN02")),
        (107, 64, ToneType::Acb, Some("JP8")),
        (103, 64, ToneType::VPiano, Some("M09X01")),
        (97, 64, ToneType::Model, Some("USER")),
        (97, 66, ToneType::Model, Some("JP8")),
        (107, 66, ToneType::Acb, Some("SH101")),
        (89, 1, ToneType::SnA, Some("USER")),
        (93, 2, ToneType::Exz, Some("EXZ005")),
        (101, 64, ToneType::Exz, Some("EXZ001")),
        (100, 65, ToneType::Drum, Some("EXZ004")),
    ];
    for (msb, lsb, tone_type, bank) in cases {
        let tone = ToneRef::new(msb, lsb, 0, None);
        assert_eq!(tone.tone_type(), tone_type);
        assert_eq!(tone.bank(), bank);
    }
}

#[test]
fn leaves_undocumented_banks_raw() {
    let tone = ToneRef::new(107, 72, 3, None);
    assert_eq!(tone.tone_type(), ToneType::Acb);
    assert_eq!(tone.bank(), None);
}
