use fantom::model::{ToneAddress, ToneType};
use fantom::requirements::{
    compare, is_factory_bank, BankRequirement, HeldSlot, Inventory, Requirements, SlotRequirement,
    ToneRequirement, Verdict,
};
use fantom::role::Role;

#[test]
fn a_verdict_that_stops_a_gate_is_only_a_definite_one() {
    assert!(Verdict::Missing.is_problem());
    assert!(Verdict::Differs.is_problem());
    assert!(!Verdict::Met.is_problem());
    // The whole point of the honest answer: it informs without pretending to decide.
    assert!(!Verdict::Unknown.is_problem());
}

#[test]
fn an_unconfirmed_bank_shows_its_raw_lsb_rather_than_a_name() {
    let named = BankRequirement {
        engine: ToneType::Exz,
        bank: Some("EXZ007".into()),
        tone: Some("Big Brass".into()),
        address: ToneAddress {
            msb: 93,
            lsb: 7,
            pc: 3,
        },
    };
    assert_eq!(named.label(), "EXZ EXZ007 PC 003 \"Big Brass\"");

    let unknown = BankRequirement {
        engine: ToneType::Acb,
        bank: None,
        tone: None,
        address: ToneAddress {
            msb: 107,
            lsb: 72,
            pc: 3,
        },
    };
    assert_eq!(unknown.label(), "ACB LSB 72 PC 003");
}

/// A destination that cannot speak must not be read as speaking. A scene export holds no
/// sample bank, so every slot would otherwise come back "missing" — a confident wrong answer.
#[test]
fn a_file_with_no_sample_bank_answers_unknown_rather_than_missing() {
    let needs = Requirements {
        samples: vec![SlotRequirement {
            slot: 7,
            name: Some("Whoa".into()),
            carried: false,
            silent: false,
            played_by: vec!["Africa Brass".into()],
        }],
        ..Requirements::default()
    };

    let silent = Inventory {
        role: Role::SceneBank,
        ..Inventory::default()
    };
    let findings = compare(&needs, &silent);
    assert_eq!(findings.len(), 1);
    assert_eq!(findings[0].verdict, Verdict::Unknown);

    // An instrument backup with nothing in slot 7 *is* saying the slot is empty.
    let backup = Inventory {
        role: Role::Backup,
        ..Inventory::default()
    };
    assert_eq!(compare(&needs, &backup)[0].verdict, Verdict::Missing);
}

#[test]
fn a_slot_holding_other_audio_differs_rather_than_being_met() {
    let needs = Requirements {
        samples: vec![SlotRequirement {
            slot: 3,
            name: Some("IML Whoa 1".into()),
            carried: false,
            silent: false,
            played_by: Vec::new(),
        }],
        ..Requirements::default()
    };
    let holds = |name: &str| Inventory {
        role: Role::Backup,
        samples: vec![HeldSlot {
            slot: 3,
            name: name.into(),
        }],
        multisamples: Vec::new(),
    };

    assert_eq!(
        compare(&needs, &holds("IML Whoa 1"))[0].verdict,
        Verdict::Met
    );
    assert_eq!(
        compare(&needs, &holds("Kick 2"))[0].verdict,
        Verdict::Differs
    );
}

/// Audio the file brings with it is not something the destination has to provide.
#[test]
fn carried_samples_are_not_asked_of_the_destination() {
    let needs = Requirements {
        samples: vec![SlotRequirement {
            slot: 1,
            name: Some("Kick".into()),
            carried: true,
            silent: false,
            played_by: Vec::new(),
        }],
        carries_audio: true,
        ..Requirements::default()
    };
    assert!(compare(&needs, &Inventory::default()).is_empty());
}

/// The numbers survive a rebuild; the names do not, because a scene bank has no slot table.
#[test]
fn slots_can_be_named_from_the_file_the_material_came_out_of() {
    let needs = Requirements {
        samples: vec![SlotRequirement {
            slot: 22,
            name: None,
            carried: false,
            silent: false,
            played_by: Vec::new(),
        }],
        ..Requirements::default()
    };
    let source = Inventory {
        role: Role::Backup,
        samples: vec![HeldSlot {
            slot: 22,
            name: "doh duh 2".into(),
        }],
        multisamples: Vec::new(),
    };
    assert_eq!(
        needs.named_from(&source).samples[0].name.as_deref(),
        Some("doh duh 2")
    );
}

/// The install guide has to name the expansions and not the presets: a FANTOM that cannot play
/// `PR-A` does not exist, while one without `EXZ007` is the common case.
#[test]
fn factory_banks_are_told_from_expansions() {
    let bank = |label: &str| BankRequirement {
        engine: ToneType::ZenCore,
        bank: Some(label.into()),
        tone: None,
        address: ToneAddress {
            msb: 87,
            lsb: 64,
            pc: 0,
        },
    };
    for factory in ["PR-A", "PR-D", "PRST", "CMN"] {
        assert!(bank(factory).is_factory(), "{factory}");
    }
    for installed in ["EXZ007", "EXSN01", "JP8", "M09X01"] {
        assert!(!bank(installed).is_factory(), "{installed}");
    }
    // An unnamed bank is not assumed to be one the destination already has.
    assert!(!BankRequirement {
        engine: ToneType::Acb,
        bank: None,
        tone: None,
        address: ToneAddress {
            msb: 107,
            lsb: 72,
            pc: 0,
        },
    }
    .is_factory());
}

/// Installed content cannot be confirmed from any file — and saying so is the point, so it is
/// reported rather than dropped.
#[test]
fn installed_content_is_reported_as_unverifiable_not_omitted() {
    let needs = Requirements {
        banks: vec![BankRequirement {
            engine: ToneType::Exz,
            bank: Some("EXZ007".into()),
            tone: None,
            address: ToneAddress {
                msb: 93,
                lsb: 7,
                pc: 0,
            },
        }],
        wave_expansions: vec![1005],
        unclassified: vec![ToneAddress {
            msb: 120,
            lsb: 3,
            pc: 9,
        }],
        ..Requirements::default()
    };
    let findings = compare(&needs, &Inventory::default());
    assert_eq!(findings.len(), 3);
    assert!(findings.iter().all(|f| f.verdict == Verdict::Unknown));
    assert!(needs.needs_installed_content());

    // A scene that only plays factory presets asks nothing of the user.
    let factory = Requirements {
        banks: vec![BankRequirement {
            engine: ToneType::ZenCore,
            bank: Some("PR-A".into()),
            tone: Some("Ac Pop Piano 1".into()),
            address: ToneAddress {
                msb: 87,
                lsb: 64,
                pc: 60,
            },
        }],
        ..Requirements::default()
    };
    assert!(!factory.needs_installed_content());
    assert_eq!(
        compare(&factory, &Inventory::default())[0].verdict,
        Verdict::Met
    );
}


#[test]
fn a_missing_tone_is_named_by_its_address() {
    let needs = Requirements {
        user_tones: vec![
            ToneRequirement {
                area: "PATa".into(),
                index: 5,
                engine: ToneType::ZenCore,
                name: None,
                address: ToneAddress { msb: 87, lsb: 0, pc: 5 },
                present: false,
            },
            ToneRequirement {
                area: "PATa".into(),
                index: 6,
                engine: ToneType::ZenCore,
                name: Some("Here".into()),
                address: ToneAddress { msb: 87, lsb: 0, pc: 6 },
                present: true,
            },
        ],
        ..Requirements::default()
    };
    let findings = compare(&needs, &Inventory::default());
    assert_eq!(findings.len(), 1);
    assert_eq!(findings[0].requirement, "user tone PATa[5] (MSB 87 LSB 0 PC 005)");
    assert_eq!(findings[0].verdict, Verdict::Missing);
    assert_eq!(needs.missing_tones().len(), 1);
    assert!(!needs.is_empty());
    assert!(Requirements::default().is_empty());
    assert_eq!(Verdict::Differs.as_str(), "differs");
    assert!(is_factory_bank("PR-B"));
    assert!(!is_factory_bank("PR"));
}

#[test]
fn a_sample_slot_is_labelled_with_its_quoted_name() {
    let needs = Requirements {
        samples: vec![SlotRequirement {
            slot: 12,
            name: Some("Kick \"1\"".into()),
            carried: false,
            silent: true,
            played_by: Vec::new(),
        }],
        ..Requirements::default()
    };
    let backup = Inventory { role: Role::Backup, ..Inventory::default() };
    let findings = compare(&needs, &backup);
    assert_eq!(findings[0].requirement, "sample slot 12 \"Kick \\\"1\\\"\"");
    assert_eq!(findings[0].detail, "the slot is empty there");
    assert_eq!(needs.silent_samples().len(), 1);
    assert_eq!(needs.missing_samples().len(), 1);
}
