use fantom::container::sample::SampleSlot;
use fantom::placement::placement_text;

fn slot(index: usize, name: &str) -> SampleSlot {
    SampleSlot {
        index,
        name: name.into(),
        in_use: true,
        level: 127,
        loop_mode: 0,
        original_key: 60,
        start: 0,
        loop_point: 0,
        end: 100,
    }
}

#[test]
fn each_carried_sample_is_placed_at_its_new_slot() {
    let text = placement_text(&[7, 29], 101, &vec![slot(6, "Kick"), slot(28, "Snare")]);
    assert_eq!(
        text,
        "the instrument asks where each sample goes — assign them exactly like this, or the\n\
         bank will not find them:\n\n\
         \x20    1. Kick                 → slot 101   (was 7)\n\
         \x20    2. Snare                → slot 102   (was 29)\n\n"
    );
}

#[test]
fn a_slot_the_file_does_not_hold_says_so() {
    let text = placement_text(&[3], 1, &vec![]);
    assert!(text.contains(" 1. <not in this file>   → slot 1     (was 3)\n"), "{text}");
}
