use fantom::checksum::crc32;
use fantom::codec::read_bundled_tones;
use fantom::container::{sample_slots, Raw, RecordTable, Svd};
use fantom::tonebank::layout::build_waveform_area;
use fantom::tonebank::load::Waveform;
use fantom::tonebank::{engine, extract_tones, merge_tones};
use fantom::verify::check;
use fantom::Error;

const TONE_LEN: usize = 700;
const HEADER_LEN: usize = 16;
const PREAMBLE_LEN: usize = 16;
const AREA_ENTRY: usize = 16;
const DIRECTORY_ENTRY: usize = 16;
const CHECKSUM_LEN: usize = 4;

/// A record of `len` bytes carrying nothing but a name.
fn named(name: &str, len: usize) -> Vec<u8> {
    let mut record = vec![0u8; len];
    record[..16].fill(b' ');
    record[..name.len()].copy_from_slice(name.as_bytes());
    record
}

/// A tone record whose first partial optionally plays user sample `slot`.
fn tone(name: &str, slot: Option<u16>) -> Vec<u8> {
    let mut record = named(name, TONE_LEN);
    if let Some(slot) = slot {
        record[0xdf] = 2;
        record[0xe2..0xe4].copy_from_slice(&slot.to_le_bytes());
    }
    record
}

fn area_body(records: &[Vec<u8>], record_size: usize, info_stride: usize) -> Vec<u8> {
    let info_len = HEADER_LEN + records.len() * info_stride;
    let mut body = Vec::new();
    body.extend_from_slice(&(records.len() as u32).to_le_bytes());
    body.extend_from_slice(&(record_size as u32).to_le_bytes());
    body.extend_from_slice(&(info_len as u32).to_le_bytes());
    body.extend_from_slice(&[0u8; 4]);
    for record in records {
        let word = if info_stride == CHECKSUM_LEN { crc32(record) } else { 0 };
        body.extend_from_slice(&word.to_le_bytes()[..info_stride]);
    }
    for record in records {
        body.extend_from_slice(record);
    }
    body
}

/// A USDa holding one section per sample, each just a tagged blob.
fn waveform_body(sections: &[Vec<u8>]) -> Vec<u8> {
    let refs: Vec<Waveform> = sections
        .iter()
        .enumerate()
        .map(|(i, bytes)| Waveform { slot: i as u32, word: 0x1234_0000 + i as u32, bytes: bytes.clone() })
        .collect();
    build_waveform_area(&refs)
}

fn svz(areas: &[([u8; 4], Vec<u8>)]) -> Raw {
    let mut bytes = Vec::new();
    bytes.extend_from_slice(b"SVZa");
    bytes.push(areas.len() as u8);
    bytes.push(3);
    bytes.extend_from_slice(b"KY019$");
    bytes.extend_from_slice(&[0u8; 4]);
    let mut offset = PREAMBLE_LEN + areas.len() * AREA_ENTRY;
    for (tag, body) in areas {
        bytes.extend_from_slice(tag);
        bytes.extend_from_slice(b"ZCOR");
        bytes.extend_from_slice(&(offset as u32).to_le_bytes());
        bytes.extend_from_slice(&(body.len() as u32).to_le_bytes());
        offset += body.len();
    }
    for (_, body) in areas {
        bytes.extend_from_slice(body);
    }
    Raw::from_bytes(bytes)
}

fn sampled_bank() -> Raw {
    let tones = vec![tone("Plain", None), tone("Sampled A", Some(1)), tone("Sampled B", Some(2))];
    let slots = vec![tone("SlotOne", None)[..64].to_vec(), tone("SlotTwo", None)[..64].to_vec()];
    svz(&[
        (*b"DIFa", area_body(&[vec![7u8; 32]], 32, 4)),
        (*b"PATa", area_body(&tones, TONE_LEN, 4)),
        (*b"USPa", area_body(&slots, 64, 4)),
        (*b"USDa", waveform_body(&[b"SMPd-one".to_vec(), b"SMPd-two".to_vec()])),
    ])
}

const KIT_LEN: usize = 256;
const INSTRUMENTS_LEN: usize = 512;

/// A drum bank: `RHYa` kits with their paired `INSa` instrument sets, carrying `samples` that
/// nothing decoded links to any particular kit.
fn drum_bank(samples: &[&str]) -> Raw {
    let kits = vec![named("Kit A", KIT_LEN), named("Kit B", KIT_LEN)];
    let instruments = vec![named("Instruments A", INSTRUMENTS_LEN), named("Instruments B", INSTRUMENTS_LEN)];
    let mut areas = vec![
        (*b"DIFa", area_body(&[vec![7u8; 32]], 32, 4)),
        (*b"RHYa", area_body(&kits, KIT_LEN, 4)),
        (*b"INSa", area_body(&instruments, INSTRUMENTS_LEN, 4)),
    ];
    if !samples.is_empty() {
        let slots: Vec<Vec<u8>> = samples.iter().map(|name| named(name, 64)).collect();
        let audio: Vec<Vec<u8>> = samples.iter().map(|name| format!("SMPd-{name}").into_bytes()).collect();
        areas.push((*b"USPa", area_body(&slots, 64, 4)));
        areas.push((*b"USDa", waveform_body(&audio)));
    }
    svz(&areas)
}

/// The slot each `USDa` directory entry names, in order.
fn waveform_slots(raw: &Raw) -> Vec<u32> {
    let svd = Svd::parse(raw).unwrap();
    let Some(area) = svd.area(b"USDa") else {
        return Vec::new();
    };
    let bytes = svd.area_bytes(raw, area).unwrap();
    let count = u32::from_le_bytes(bytes[0..4].try_into().unwrap()) as usize;
    (0..count)
        .map(|index| {
            let at = HEADER_LEN + index * DIRECTORY_ENTRY;
            u32::from_le_bytes(bytes[at..at + 4].try_into().unwrap())
        })
        .collect()
}

fn contains(raw: &Raw, needle: &[u8]) -> bool {
    let svd = Svd::parse(raw).unwrap();
    let bytes = svd.area_bytes(raw, svd.area(b"USDa").unwrap()).unwrap().to_vec();
    bytes.windows(needle.len()).any(|w| w == needle)
}

fn slot_count(raw: &Raw) -> usize {
    let svd = Svd::parse(raw).unwrap();
    svd.area(b"USPa")
        .map(|area| RecordTable::parse(area, svd.area_bytes(raw, area).unwrap()).unwrap().len())
        .unwrap_or(0)
}

fn tone_names(raw: &Raw) -> Vec<String> {
    read_bundled_tones(raw).unwrap().into_iter().map(|t| t.name).collect()
}

fn tone_records(raw: &Raw) -> Vec<Vec<u8>> {
    let svd = Svd::parse(raw).unwrap();
    let area = svd.area(b"PATa").unwrap();
    let table = RecordTable::parse(area, svd.area_bytes(raw, area).unwrap()).unwrap();
    table.records().into_iter().map(<[u8]>::to_vec).collect()
}

#[test]
fn extracts_the_requested_tones_in_order() {
    let extracted = extract_tones(&sampled_bank(), &[2, 0]).unwrap();
    assert_eq!(tone_names(&extracted), ["Sampled B", "Plain"]);
}

/// The point of an SVZ: a sampled tone brings its waveform along, renumbered to match.
#[test]
fn a_sampled_tone_carries_its_sample_and_is_renumbered() {
    let extracted = extract_tones(&sampled_bank(), &[2]).unwrap();

    // The tone referenced slot 2; alone in the output it must now reference slot 1.
    assert_eq!(sample_slots(&tone_records(&extracted)[0]), [1]);

    let svd = Svd::parse(&extracted).unwrap();
    let slots = RecordTable::parse(
        svd.area(b"USPa").unwrap(),
        svd.area_bytes(&extracted, svd.area(b"USPa").unwrap()).unwrap(),
    )
    .unwrap();
    assert_eq!(slots.len(), 1, "only the referenced slot travels");
    assert_eq!(&slots.record(0).unwrap()[..7], b"SlotTwo");

    // And its audio, verbatim.
    let usda = svd.area_bytes(&extracted, svd.area(b"USDa").unwrap()).unwrap();
    assert!(usda.windows(8).any(|w| w == b"SMPd-two"), "the referenced waveform is missing");
    assert!(!usda.windows(8).any(|w| w == b"SMPd-one"), "an unreferenced waveform came along");
}

#[test]
fn a_tone_without_samples_produces_no_sample_areas() {
    let extracted = extract_tones(&sampled_bank(), &[0]).unwrap();
    let svd = Svd::parse(&extracted).unwrap();
    assert!(svd.area(b"USPa").is_none());
    assert!(svd.area(b"USDa").is_none());
}

#[test]
fn areas_keep_the_order_the_source_used() {
    let extracted = extract_tones(&sampled_bank(), &[1]).unwrap();
    let tags: Vec<String> = Svd::parse(&extracted).unwrap().areas.iter().map(|a| a.tag_str()).collect();
    assert_eq!(tags, ["DIFa", "PATa", "USPa", "USDa"]);
}

#[test]
fn merging_appends_new_tones_and_drops_duplicates() {
    let bank = sampled_bank();
    let a = extract_tones(&bank, &[0, 1]).unwrap();
    let b = extract_tones(&bank, &[1, 2]).unwrap();

    let merged = merge_tones(&a, &b).unwrap();
    assert_eq!(tone_names(&merged), ["Plain", "Sampled A", "Sampled B"]);

    // Both sampled tones kept distinct samples, renumbered into one dense bank.
    assert_eq!(sample_slots(&tone_records(&merged)[1]), [1]);
    assert_eq!(sample_slots(&tone_records(&merged)[2]), [2]);
}

#[test]
fn merging_a_bank_with_itself_changes_nothing() {
    let a = extract_tones(&sampled_bank(), &[0, 2]).unwrap();
    let merged = merge_tones(&a, &a).unwrap();
    assert_eq!(tone_names(&merged), tone_names(&a));
}

#[test]
fn refuses_a_scene_bank() {
    let raw = Raw::from_bytes({
        let mut b = vec![];
        b.extend_from_slice(&30u16.to_le_bytes());
        b.extend_from_slice(b"SVD5");
        b.extend_from_slice(&[0u8; 26]);
        b
    });
    let error = extract_tones(&raw, &[0]).unwrap_err().message();
    assert!(error.contains("not an SVZ tone bank"), "{error}");
}

/// The checksum must cover the record actually emitted.
#[test]
fn a_rewritten_record_gets_a_checksum_that_matches_it() {
    let extracted = extract_tones(&sampled_bank(), &[2]).unwrap();
    let report = check(&extracted).unwrap();
    assert!(report.is_ok(), "{:?}", report.problems.iter().map(|p| p.message()).collect::<Vec<_>>());
    assert!(report.checked > 0, "nothing was actually checked");

    // The rewritten record's checksum must differ from the source's, since its bytes did.
    let source = sampled_bank();
    let svd = Svd::parse(&source).unwrap();
    let area = svd.area(b"PATa").unwrap();
    let table = RecordTable::parse(area, svd.area_bytes(&source, area).unwrap()).unwrap();
    let original = u32::from_le_bytes(table.record_info(2).unwrap().try_into().unwrap());

    let svd = Svd::parse(&extracted).unwrap();
    let area = svd.area(b"PATa").unwrap();
    let table = RecordTable::parse(area, svd.area_bytes(&extracted, area).unwrap()).unwrap();
    let emitted = u32::from_le_bytes(table.record_info(0).unwrap().try_into().unwrap());
    assert_ne!(emitted, original, "checksum was carried over, not recomputed");
}

/// A record copied through untouched must keep its original checksum exactly.
#[test]
fn an_untouched_record_keeps_its_checksum() {
    let source = sampled_bank();
    let extracted = extract_tones(&source, &[0]).unwrap();

    let svd = Svd::parse(&source).unwrap();
    let area = svd.area(b"PATa").unwrap();
    let table = RecordTable::parse(area, svd.area_bytes(&source, area).unwrap()).unwrap();
    let original = table.record_info(0).unwrap().to_vec();

    let svd = Svd::parse(&extracted).unwrap();
    let area = svd.area(b"PATa").unwrap();
    let table = RecordTable::parse(area, svd.area_bytes(&extracted, area).unwrap()).unwrap();
    assert_eq!(table.record_info(0).unwrap(), original.as_slice());
}

/// A drum kit's tone-to-sample link is not decoded, so every sample travels.
#[test]
fn an_undecoded_engine_carries_every_sample_it_has() {
    let extracted = extract_tones(&drum_bank(&["one", "two"]), &[1]).unwrap();

    assert_eq!(tone_names(&extracted), ["Kit B"]);
    assert_eq!(slot_count(&extracted), 2, "both slots must travel");
    assert!(contains(&extracted, b"SMPd-one"));
    assert!(contains(&extracted, b"SMPd-two"));
}

/// Carried samples keep their numbers: an undecoded reference to slot 2 can never be rewritten.
#[test]
fn carried_samples_keep_their_original_slot_numbers() {
    let extracted = extract_tones(&drum_bank(&["one", "two", "three"]), &[0]).unwrap();
    assert_eq!(waveform_slots(&extracted), [0, 1, 2]);
}

#[test]
fn an_undecoded_engine_without_samples_gains_no_sample_areas() {
    let extracted = extract_tones(&drum_bank(&[]), &[0]).unwrap();
    let svd = Svd::parse(&extracted).unwrap();
    assert!(svd.area(b"USPa").is_none());
    assert!(svd.area(b"USDa").is_none());
}

#[test]
fn merging_undecoded_banks_carries_the_samples_through() {
    let bank = drum_bank(&["one", "two"]);
    let a = extract_tones(&bank, &[0]).unwrap();
    let b = extract_tones(&bank, &[1]).unwrap();

    let merged = merge_tones(&a, &b).unwrap();
    assert_eq!(tone_names(&merged), ["Kit A", "Kit B"]);
    assert_eq!(slot_count(&merged), 2);
    assert_eq!(waveform_slots(&merged), [0, 1]);
}

#[test]
fn merging_an_undecoded_bank_that_has_samples_into_one_that_does_not() {
    let a = extract_tones(&drum_bank(&[]), &[0]).unwrap();
    let b = extract_tones(&drum_bank(&["one"]), &[1]).unwrap();

    let merged = merge_tones(&a, &b).unwrap();
    assert_eq!(slot_count(&merged), 1);
    assert!(contains(&merged, b"SMPd-one"));
}

/// Two drum banks holding different samples cannot be joined.
#[test]
fn merging_undecoded_banks_with_different_samples_is_refused() {
    let a = extract_tones(&drum_bank(&["one"]), &[0]).unwrap();
    let b = extract_tones(&drum_bank(&["other"]), &[1]).unwrap();

    let error = merge_tones(&a, &b).unwrap_err().message();
    assert!(error.contains("different user samples"), "{error}");
}

#[test]
fn rejects_a_tone_index_past_the_end() {
    let error = extract_tones(&sampled_bank(), &[9]).unwrap_err().message();
    assert!(error.contains("out of range"), "{error}");
}

#[test]
fn an_empty_selection_is_refused() {
    assert_eq!(extract_tones(&sampled_bank(), &[]).unwrap_err(), Error::NoTones);
}

#[test]
fn merging_banks_of_different_engines_is_refused() {
    let error = merge_tones(&sampled_bank(), &drum_bank(&[])).unwrap_err();
    assert_eq!(error, Error::EnginesDiffer { target: *b"PATa", source: *b"RHYa" });
    assert!(error.message().contains("cannot merge a RHYa bank into a PATa bank"), "{}", error.message());
}

#[test]
fn the_engine_of_a_bank_is_its_first_engine_area() {
    assert_eq!(engine(&sampled_bank()).unwrap().tag, *b"PATa");
    assert_eq!(engine(&drum_bank(&["one"])).unwrap().tag, *b"RHYa");
}

/// Tones are compared byte for byte, so a tone renumbered differently in the second bank is a new
/// tone; its audio, though, is already there and is shared rather than carried twice.
#[test]
fn merging_shares_audio_that_is_already_there() {
    let bank = sampled_bank();
    let a = extract_tones(&bank, &[2]).unwrap();
    let b = extract_tones(&bank, &[1, 2]).unwrap();
    let merged = merge_tones(&a, &b).unwrap();
    assert!(check(&merged).unwrap().is_ok());
    assert_eq!(tone_names(&merged), ["Sampled B", "Sampled A", "Sampled B"]);
    assert_eq!(slot_count(&merged), 2);
    let records = tone_records(&merged);
    assert_eq!(sample_slots(&records[0]), [1]);
    assert_eq!(sample_slots(&records[1]), [2]);
    assert_eq!(sample_slots(&records[2]), [1]);
    assert_eq!(waveform_slots(&merged), [0, 1]);
}
