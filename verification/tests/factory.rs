use fantom::factory::{parse, FactorySound};
use fantom::model::{ToneAddress, ToneType};

const LIST: &str = "msb\tlsb\tpc\tnumber\tname\tcategory\n\
107\t0\t1\t1\tSoft & Subtle\t05:Synth Pad\n\
86\t64\t4\t0004\t  Kit  \t\n\
87\t0\t0\t1\tBad PC\n\
90\t64\tx\t1\tBad\n\
91\t65\t+2\t\tNo number\r\n\
105\t0\t3\t1\t   \n\
89\t65\t300\t1\tToo far\n\
89\t65\t1\t7\n";

#[test]
fn every_sound_line_of_a_list_is_read_and_the_rest_passed_over() {
    let sounds = parse(LIST);
    assert_eq!(sounds.len(), 3);

    assert_eq!(
        sounds[0],
        FactorySound {
            address: ToneAddress { msb: 107, lsb: 0, pc: 0 },
            number: 1,
            name: "Soft & Subtle",
            category: "05:Synth Pad",
        }
    );
    assert_eq!(sounds[0].engine(), ToneType::Acb);

    // Fields are trimmed, a printed program number counts from one, leading zeros read.
    assert_eq!(sounds[1].address, ToneAddress { msb: 86, lsb: 64, pc: 3 });
    assert_eq!((sounds[1].number, sounds[1].name, sounds[1].category), (4, "Kit", ""));
    assert_eq!(sounds[1].engine(), ToneType::Drum);
    assert_eq!(sounds[1].bank(), Some("PR-A"));

    // An unreadable number is 0, a missing category is empty, and `\r\n` ends a line.
    assert_eq!(sounds[2].address, ToneAddress { msb: 91, lsb: 65, pc: 1 });
    assert_eq!((sounds[2].number, sounds[2].name, sounds[2].category), (0, "No number", ""));
    assert_eq!(sounds[2].bank(), Some("PRST"));
}

#[test]
fn a_list_with_nothing_under_its_header_holds_no_sounds() {
    assert!(parse("").is_empty());
    assert!(parse("msb\tlsb\tpc\tnumber\tname\tcategory").is_empty());
    assert!(parse("msb\tlsb\tpc\tnumber\tname\tcategory\n").is_empty());
    // The header line is never a sound, even when it reads as one.
    assert!(parse("87\t0\t1\t1\tHeader").is_empty());
}

#[test]
fn the_last_line_needs_no_newline() {
    let sounds = parse("header\n87\t64\t1\t1\tPiano 1\t01:Ac.Piano");
    assert_eq!(sounds.len(), 1);
    assert_eq!(sounds[0].name, "Piano 1");
    assert_eq!(sounds[0].engine(), ToneType::ZenCore);
}
