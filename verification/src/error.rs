//! What can go wrong reading or rewriting a FANTOM file.

use vstd::prelude::*;

use crate::text::{
    debug_str, decimal, hex2, lossy_text, push_char, push_debug_str, push_decimal, push_hex2,
    push_str, utf8_lossy,
};

verus! {

/// Which free-text field a value was checked for.
#[derive(Debug, Clone, Copy, PartialEq, Eq)]
pub enum Field {
    /// A 16-character scene or tone name.
    Name,
    /// A scene's 64-character comment.
    Comment,
}

/// Errors produced while reading, decoding or rewriting Fantom data.
#[allow(inconsistent_fields)]
#[derive(Debug, Clone, PartialEq, Eq)]
pub enum Error {
    /// The file is shorter than the 16-byte container preamble.
    ShortHeader,
    /// Neither the `SVZa` nor the `SVD5` magic is where it belongs; `head` is the first six bytes.
    NotAContainer { head: Vec<u8> },
    /// The area table announces `count` entries but the file ends first.
    AreaTableBeyondFile { count: usize },
    /// An area's byte range does not lie within the file.
    AreaBeyondFile { tag: [u8; 4], start: usize, end: usize, file_len: usize },
    /// An area body ends before the header field at `at` could be read.
    AreaTruncated { tag: [u8; 4], at: usize },
    /// An area header declares records of zero bytes.
    ZeroRecordSize { tag: [u8; 4] },
    /// The file has no area with this tag.
    MissingArea { tag: [u8; 4] },
    /// A scene number (1-based) past the last scene of the file.
    SceneOutOfRange { scene: usize, count: usize },
    /// Showing `context` bytes around a differing run would reach past the address space.
    ContextTooWide { context: usize },
    /// A record index past the end of its area.
    RecordOutOfRange { tag: [u8; 4], index: usize, count: usize },
    /// A text field holds a character the instrument cannot show.
    BadCharacter { field: Field, found: char },
    /// A text field is longer than the instrument stores.
    TooLong { field: Field, limit: usize, got: usize },
    /// More records than a bank's LSB pages can address.
    TooManyRecords { tag: [u8; 4], maximum: usize },
    /// A record ends before a structure read from it: `needed` bytes, `got` present.
    ShortRecord { needed: usize, got: usize },
    /// A zone entry lacks its `cf cd` alignment marker.
    ZoneMarker { found: [u8; 2] },
    /// A run of sample slots was asked to start at slot 0, which means "no wave".
    SlotZero,
    /// `count` samples starting at slot `base` would run to `last`, past the panel's slots.
    SampleRunTooLong { count: usize, base: u16, last: usize },
    /// An `SVZa` numbers its samples by position in its own slot directory: nothing to rebase.
    SamplesArePositional,
    /// An area whose records carry checksums, which rewriting them in place would invalidate.
    Checksummed { tag: [u8; 4] },
    /// A rebuilt file failed its own structural check.
    Inconsistent { problems: Vec<crate::verify::Problem> },
    /// An extraction was asked for no scenes at all.
    NoScenes,
    /// A record-table area too short to hold its 16-byte header.
    HeaderMissing { tag: [u8; 4] },
    /// Scene records of `size` bytes cannot hold their 16-byte name.
    NameFieldCut { tag: [u8; 4], size: usize },
    /// Records of `size` bytes are too short to be a tone: a name and nothing after it.
    NotAToneRecord { tag: [u8; 4], size: usize },
    /// Record `record` (1-based) of an area runs past the area's end.
    RecordTruncated { tag: [u8; 4], record: usize },
    /// A scene points into an engine area the file does not have.
    DependencyMissing { tag: [u8; 4] },
    /// An engine area without the area indexed in lockstep with it.
    PairedMissing { tag: [u8; 4], paired: [u8; 4] },
    /// Two areas indexed in lockstep hold different numbers of records.
    PairedCountsDiffer { tag: [u8; 4] },
    /// A scene points into an engine bank its own file did not bundle.
    NotBundled { tag: [u8; 4] },
    /// A scene points at a bundled record past the end of its bank.
    EntryOutOfRange { tag: [u8; 4], index: usize },
    /// Two files bundle the same engine with different area formats or record sizes.
    BundlesDiffer,
    /// More records than a four-byte count can hold.
    TooManyToEncode,
    /// A record whose length is not its area's record size.
    RecordSizeChanged,
    /// An area a rebuilt file could not carry over, since nothing says what it depends on.
    UnknownArea { tag: [u8; 4] },
    /// More areas than the area-table header size can count.
    TooManyAreas,
    /// Two scene banks whose scene records differ in size.
    SceneSizesDiffer { target: usize, source: usize },
    /// Two scene banks whose scene areas carry different format stamps.
    SceneFormatsDiffer,
    /// Records of an area too short to hold their name field.
    NameFieldShort { tag: [u8; 4] },
    /// A scene bank where a tone bank was expected.
    NotAToneBank,
    /// A tone bank with no engine area at all.
    NoToneArea,
    /// Waveform directory entry `index` runs past the area.
    WaveEntryTruncated { index: usize },
    /// Waveform section `index` lies outside its area.
    WaveSectionBeyond { index: usize },
    /// An extraction was asked for no tones at all.
    NoTones,
    /// A tone index (from 0) past the last tone of the bank.
    ToneOutOfRange { index: usize, count: usize },
    /// Two tone banks of different engines.
    EnginesDiffer { target: [u8; 4], source: [u8; 4] },
    /// Two tone banks whose records differ in size.
    ToneSizesDiffer,
    /// Tones play samples the bank has no slot directory for.
    NoSlotArea,
    /// A sampled tone whose bank has no slot directory.
    SampledWithoutSlots,
    /// Merged sampled tones with no slot directory to carry.
    MergedWithoutSlots,
    /// A sample slot (from 0) with no waveform section.
    NoWaveform { slot: usize },
    /// A record index past the end of an area being rebuilt.
    AreaRecordOutOfRange { tag: [u8; 4], index: usize, count: usize },
    /// Two banks of an engine whose sample references are undecoded, carrying different samples.
    DifferentSamples { tag: [u8; 4] },
    /// More areas than an SVZ preamble can count.
    TooManyAreasSvz,
    /// A tag that names no user tone area.
    NotAToneArea { tag: [u8; 4] },
    /// A sample export asked for no slot.
    NoSampleSlots,
    /// A file with no `SMPa` area, so no user audio to export.
    NoSampleArea,
    /// Sample slot `slot` (from 1) past the `count` slots the file has.
    SampleSlotOutOfRange { slot: usize, count: usize },
    /// An `SMPd` section too short for its header fields.
    SmpdTruncated,
    /// An `SMPd` section too short for its header, so no audio after it.
    SmpdShort,
    /// A tone export asked for no tone.
    NoToneIndexes,
    /// An engine whose records' sample references are not decoded.
    SampleRefsNotDecoded { tag: [u8; 4] },
    /// A tone export asked of a file that is already an SVZ.
    AlreadySvz,
    /// Tone `index` past the `count` records of area `tag`.
    ExportToneOutOfRange { tag: [u8; 4], index: usize, count: usize },
    /// A file without the area `tag` a tone export needs.
    NoSuchArea { tag: [u8; 4] },
    /// A value the library refuses to store, with the reason.
    Rejected { message: String },
}

/// Result type of this crate.
pub type Result<T> = std::result::Result<T, Error>;

} // verus!

verus! {

/// How a field is named in messages.
pub open spec fn field_word(f: Field) -> Seq<char> {
    match f {
        Field::Name => "name"@,
        Field::Comment => "comment"@,
    }
}

/// The problems of a failed check, each described and joined by `; `.
pub open spec fn joined(ps: Seq<crate::verify::Problem>) -> Seq<char>
    decreases ps.len(),
{
    if ps.len() == 0 {
        Seq::empty()
    } else if ps.len() == 1 {
        crate::verify::problem_text(ps[0])
    } else {
        joined(ps.drop_last()) + "; "@ + crate::verify::problem_text(ps.last())
    }
}

/// An error as it reads when shown on its own: what a structural failure says comes after
/// `unrecognized structure: `; a refusal in words of its own, and a context too wide to show,
/// read as they are.
pub open spec fn message_text(e: Error) -> Seq<char> {
    if e is Rejected || e is ContextTooWide {
        error_text(e)
    } else {
        "unrecognized structure: "@ + error_text(e)
    }
}

/// What an error says, after the common `unrecognized structure: ` prefix where it has one.
pub open spec fn error_text(e: Error) -> Seq<char> {
    match e {
        Error::ShortHeader => "file is shorter than the 16-byte container preamble"@,
        Error::NotAContainer { .. } => "not an SVD5 or SVZa container"@,
        Error::AreaTableBeyondFile { count } => "the area table lists "@ + decimal(count as nat)
            + " areas but the file ends first"@,
        Error::AreaBeyondFile { tag, start, end, file_len } => utf8_lossy(tag@) + " area "@
            + decimal(start as nat) + ".."@ + decimal(end as nat) + " lies beyond the "@ + decimal(
            file_len as nat,
        ) + "-byte file"@,
        Error::AreaTruncated { tag, at } => utf8_lossy(tag@) + " area truncated at offset "@
            + decimal(at as nat),
        Error::ZeroRecordSize { tag } => utf8_lossy(tag@) + " record size is zero"@,
        Error::MissingArea { tag } => "no "@ + utf8_lossy(tag@) + " area in file"@,
        Error::ContextTooWide { context } => "--context "@ + decimal(context as nat)
            + " reaches past the end of the address space"@,
        Error::SceneOutOfRange { scene, count } => "scene "@ + decimal(scene as nat)
            + " out of range (file has "@ + decimal(count as nat) + ")"@,
        Error::RecordOutOfRange { tag, index, count } => "scene references "@ + utf8_lossy(tag@)
            + " record "@ + decimal(index as nat) + ", but the area holds 0.."@ + decimal(
            (if count == 0 {
                0
            } else {
                count - 1
            }) as nat,
        ),
        Error::BadCharacter { field, found } => "a Fantom "@ + field_word(field)
            + " cannot contain "@ + debug_str(seq![found]) + "; only printable ASCII"@,
        Error::TooLong { field, limit, got } => "a Fantom "@ + field_word(field) + " is at most "@
            + decimal(limit as nat) + " characters, got "@ + decimal(got as nat),
        Error::TooManyRecords { tag, maximum } => utf8_lossy(tag@) + " can address at most "@
            + decimal(maximum as nat) + " records"@,
        Error::ShortRecord { needed, got } => "a record needs "@ + decimal(needed as nat)
            + " bytes but holds "@ + decimal(got as nat),
        Error::ZoneMarker { found } => "zone entry lacks its cf cd marker (found "@ + hex2(
            found[0],
        ) + " "@ + hex2(found[1]) + ")"@,
        Error::SlotZero => "sample slots are numbered from 1; slot 0 means \"no wave\""@,
        Error::SampleRunTooLong { count, base, last } => decimal(count as nat) + " sample"@ + (if count
            == 1 {
            ""@
        } else {
            "s"@
        }) + " starting at slot "@ + decimal(base as nat) + " would run to "@ + decimal(
            last as nat,
        ) + ", past the panel's 8000"@,
        Error::SamplesArePositional =>
            "an SVZ addresses samples by position within its own USPa, so there is nothing to rebase"@,
        Error::Checksummed { tag } => utf8_lossy(tag@)
            + " carries per-record checksums; rewriting it would invalidate them"@,
        Error::Inconsistent { problems } => "repackaging produced an inconsistent file: "@
            + joined(problems@),
        Error::NoScenes => "at least one scene number is required"@,
        Error::HeaderMissing { tag } => utf8_lossy(tag@) + " area is shorter than its header"@,
        Error::NameFieldCut { tag, size } => utf8_lossy(tag@) + " record size "@ + decimal(
            size as nat,
        ) + " is shorter than its name field"@,
        Error::NotAToneRecord { tag, size } => utf8_lossy(tag@) + " record size "@ + decimal(
            size as nat,
        ) + " is shorter than a tone record"@,
        Error::RecordTruncated { tag, record } => utf8_lossy(tag@) + " record "@ + decimal(
            record as nat,
        ) + " is truncated"@,
        Error::DependencyMissing { tag } => "scene references missing "@ + utf8_lossy(tag@)
            + " area"@,
        Error::PairedMissing { tag, paired } => utf8_lossy(tag@) + " requires paired "@
            + utf8_lossy(paired@) + " area"@,
        Error::PairedCountsDiffer { tag } => utf8_lossy(tag@) + " paired area counts differ"@,
        Error::NotBundled { tag } => "scene references missing "@ + utf8_lossy(tag@)
            + " dependency"@,
        Error::EntryOutOfRange { tag, index } => utf8_lossy(tag@) + " record "@ + decimal(
            index as nat,
        ) + " is out of range"@,
        Error::BundlesDiffer => "dependency area formats or record sizes differ"@,
        Error::TooManyToEncode => "too many records to encode"@,
        Error::RecordSizeChanged => "record size changed while repackaging"@,
        Error::UnknownArea { tag } => "cannot preserve unknown area "@ + utf8_lossy(tag@)
            + " while rebuilding the area table"@,
        Error::TooManyAreas => "too many SVD areas"@,
        Error::SceneSizesDiffer { target, source } => "PRFa record sizes differ (target "@
            + decimal(target as nat) + ", source "@ + decimal(source as nat) + ")"@,
        Error::SceneFormatsDiffer => "source and target use different PRFa format versions"@,
        Error::NameFieldShort { tag } => utf8_lossy(tag@) + " record is shorter than its name field"@,
        Error::NotAToneBank => "not an SVZ tone bank — use extract/merge for scene banks"@,
        Error::NoToneArea => "no tone area in this SVZ (expected PATa or RHYa)"@,
        Error::WaveEntryTruncated { index } => "USDa directory entry "@ + decimal(index as nat) + " is truncated"@,
        Error::WaveSectionBeyond { index } => "USDa section "@ + decimal(index as nat) + " exceeds the area"@,
        Error::NoTones => "at least one tone index is required"@,
        Error::ToneOutOfRange { index, count } => "tone "@ + decimal(index as nat) + " is out of range (the bank has "@ + decimal(count as nat) + ", numbered 0.."@ + decimal((if count == 0 { 0 } else { count - 1 }) as nat) + ")"@,
        Error::EnginesDiffer { target, source } => "cannot merge a "@ + utf8_lossy(source@) + " bank into a "@ + utf8_lossy(target@) + " bank"@,
        Error::ToneSizesDiffer => "tone record sizes differ between the two banks"@,
        Error::NoSlotArea => "tones reference samples but the bank has no USPa area"@,
        Error::SampledWithoutSlots => "sampled tone without a USPa area"@,
        Error::MergedWithoutSlots => "sampled tones without a USPa area"@,
        Error::NoWaveform { slot } => "no waveform data for sample slot "@ + decimal(slot as nat),
        Error::AreaRecordOutOfRange { tag, index, count } => utf8_lossy(tag@) + " record "@ + decimal(index as nat) + " is out of range (area has "@ + decimal(count as nat) + ")"@,
        Error::DifferentSamples { tag } => "cannot merge two "@ + utf8_lossy(tag@) + " banks that carry different user samples — a "@ + utf8_lossy(tag@) + " record's sample references are not decoded, so colliding slots cannot be renumbered without silently breaking them"@,
        Error::TooManyAreasSvz => "too many areas for an SVZ"@,
        Error::NotAToneArea { tag } => utf8_lossy(tag@) + " is not a user tone area"@,
        Error::NoSampleSlots => "at least one sample slot is required"@,
        Error::NoSampleArea => "this file has no SMPa area — only a full backup carries user sample audio"@,
        Error::SampleSlotOutOfRange { slot, count } => "sample slot "@ + decimal(slot as nat)
            + " is out of range (the file has "@ + decimal(count as nat) + ")"@,
        Error::SmpdTruncated => "SMPd section truncated at offset 0x24"@,
        Error::SmpdShort => "SMPd section is shorter than its header"@,
        Error::NoToneIndexes => "at least one tone index is required"@,
        Error::SampleRefsNotDecoded { tag } => "a "@ + utf8_lossy(tag@)
            + " record's sample references are not decoded, so an export could not tell which audio to carry — and a tone bank missing its samples plays the wrong sound silently"@,
        Error::AlreadySvz => "this is already an SVZ — `tonebank::extract_tones` repackages one"@,
        Error::ExportToneOutOfRange { tag, index, count } => "tone "@ + decimal(index as nat)
            + " is out of range ("@ + utf8_lossy(tag@) + " holds "@ + decimal(count as nat)
            + ", numbered 0.."@ + decimal((if count == 0 { 0 } else { count - 1 }) as nat) + ")"@,
        Error::NoSuchArea { tag } => "this file has no "@ + utf8_lossy(tag@) + " area"@,
        Error::Rejected { message } => message@,
    }
}

fn push_tag(s: &mut String, tag: &[u8; 4])
    ensures
        final(s)@ == old(s)@ + utf8_lossy(tag@),
{
    let t = lossy_text(tag);
    push_str(s, t.as_str());
}

impl Error {
    /// The error in words, as the command line prints it.
    #[verifier::rlimit(80)]
    pub fn message(&self) -> (s: String)
        ensures
            s@ == message_text(*self),
    {
        if let Error::Rejected { message } = self {
            let mut s = String::new();
            push_str(&mut s, message.as_str());
            assert(s@ =~= message@);
            return s;
        }
        if let Error::ContextTooWide { context } = self {
            let mut s = String::new();
            push_str(&mut s, "--context ");
            push_decimal(&mut s, *context as u64);
            push_str(&mut s, " reaches past the end of the address space");
            return s;
        }
        let mut s = String::new();
        push_str(&mut s, "unrecognized structure: ");
        let ghost prefix = s@;
        match self {
            Error::ShortHeader => push_str(&mut s, "file is shorter than the 16-byte container preamble"),
            Error::NotAContainer { .. } => push_str(&mut s, "not an SVD5 or SVZa container"),
            Error::AreaTableBeyondFile { count } => {
                push_str(&mut s, "the area table lists ");
                push_decimal(&mut s, *count as u64);
                push_str(&mut s, " areas but the file ends first");
            },
            Error::AreaBeyondFile { tag, start, end, file_len } => {
                push_tag(&mut s, tag);
                push_str(&mut s, " area ");
                push_decimal(&mut s, *start as u64);
                push_str(&mut s, "..");
                push_decimal(&mut s, *end as u64);
                push_str(&mut s, " lies beyond the ");
                push_decimal(&mut s, *file_len as u64);
                push_str(&mut s, "-byte file");
            },
            Error::AreaTruncated { tag, at } => {
                push_tag(&mut s, tag);
                push_str(&mut s, " area truncated at offset ");
                push_decimal(&mut s, *at as u64);
            },
            Error::ZeroRecordSize { tag } => {
                push_tag(&mut s, tag);
                push_str(&mut s, " record size is zero");
            },
            Error::MissingArea { tag } => {
                push_str(&mut s, "no ");
                push_tag(&mut s, tag);
                push_str(&mut s, " area in file");
            },
            Error::ContextTooWide { .. } => {},
            Error::SceneOutOfRange { scene, count } => {
                push_str(&mut s, "scene ");
                push_decimal(&mut s, *scene as u64);
                push_str(&mut s, " out of range (file has ");
                push_decimal(&mut s, *count as u64);
                push_str(&mut s, ")");
            },
            Error::RecordOutOfRange { tag, index, count } => {
                push_str(&mut s, "scene references ");
                push_tag(&mut s, tag);
                push_str(&mut s, " record ");
                push_decimal(&mut s, *index as u64);
                push_str(&mut s, ", but the area holds 0..");
                let last = if *count == 0 {
                    0
                } else {
                    *count - 1
                };
                push_decimal(&mut s, last as u64);
            },
            Error::BadCharacter { field, found } => {
                push_str(&mut s, "a Fantom ");
                match field {
                    Field::Name => push_str(&mut s, "name"),
                    Field::Comment => push_str(&mut s, "comment"),
                }
                push_str(&mut s, " cannot contain ");
                let mut one = String::new();
                push_char(&mut one, *found);
                push_debug_str(&mut s, one.as_str());
                push_str(&mut s, "; only printable ASCII");
            },
            Error::TooLong { field, limit, got } => {
                push_str(&mut s, "a Fantom ");
                match field {
                    Field::Name => push_str(&mut s, "name"),
                    Field::Comment => push_str(&mut s, "comment"),
                }
                push_str(&mut s, " is at most ");
                push_decimal(&mut s, *limit as u64);
                push_str(&mut s, " characters, got ");
                push_decimal(&mut s, *got as u64);
            },
            Error::TooManyRecords { tag, maximum } => {
                push_tag(&mut s, tag);
                push_str(&mut s, " can address at most ");
                push_decimal(&mut s, *maximum as u64);
                push_str(&mut s, " records");
            },
            Error::ShortRecord { needed, got } => {
                push_str(&mut s, "a record needs ");
                push_decimal(&mut s, *needed as u64);
                push_str(&mut s, " bytes but holds ");
                push_decimal(&mut s, *got as u64);
            },
            Error::ZoneMarker { found } => {
                push_str(&mut s, "zone entry lacks its cf cd marker (found ");
                push_hex2(&mut s, found[0]);
                push_str(&mut s, " ");
                push_hex2(&mut s, found[1]);
                push_str(&mut s, ")");
            },
            Error::SlotZero => push_str(&mut s, "sample slots are numbered from 1; slot 0 means \"no wave\""),
            Error::SampleRunTooLong { count, base, last } => {
                push_decimal(&mut s, *count as u64);
                push_str(&mut s, " sample");
                if *count != 1 {
                    push_str(&mut s, "s");
                } else {
                    push_str(&mut s, "");
                }
                push_str(&mut s, " starting at slot ");
                push_decimal(&mut s, *base as u64);
                push_str(&mut s, " would run to ");
                push_decimal(&mut s, *last as u64);
                push_str(&mut s, ", past the panel's 8000");
            },
            Error::SamplesArePositional => push_str(
                &mut s,
                "an SVZ addresses samples by position within its own USPa, so there is nothing to rebase",
            ),
            Error::Checksummed { tag } => {
                push_tag(&mut s, tag);
                push_str(&mut s, " carries per-record checksums; rewriting it would invalidate them");
            },
            Error::Inconsistent { problems } => {
                push_str(&mut s, "repackaging produced an inconsistent file: ");
                let mut i: usize = 0;
                while i < problems.len()
                    invariant
                        i <= problems@.len(),
                        s@ == prefix + "repackaging produced an inconsistent file: "@ + joined(
                            problems@.subrange(0, i as int),
                        ),
                    decreases problems@.len() - i,
                {
                    if i > 0 {
                        push_str(&mut s, "; ");
                    }
                    let text = problems[i].message();
                    push_str(&mut s, text.as_str());
                    proof {
                        let next = problems@.subrange(0, i + 1);
                        assert(next.drop_last() =~= problems@.subrange(0, i as int));
                        if i == 0 {
                            assert(problems@.subrange(0, 0) =~= Seq::<crate::verify::Problem>::empty());
                        }
                    }
                    i = i + 1;
                }
                assert(problems@.subrange(0, problems@.len() as int) =~= problems@);
            },
            Error::NoScenes => push_str(&mut s, "at least one scene number is required"),
            Error::HeaderMissing { tag } => {
                push_tag(&mut s, tag);
                push_str(&mut s, " area is shorter than its header");
            },
            Error::NameFieldCut { tag, size } => {
                push_tag(&mut s, tag);
                push_str(&mut s, " record size ");
                push_decimal(&mut s, *size as u64);
                push_str(&mut s, " is shorter than its name field");
            },
            Error::NotAToneRecord { tag, size } => {
                push_tag(&mut s, tag);
                push_str(&mut s, " record size ");
                push_decimal(&mut s, *size as u64);
                push_str(&mut s, " is shorter than a tone record");
            },
            Error::RecordTruncated { tag, record } => {
                push_tag(&mut s, tag);
                push_str(&mut s, " record ");
                push_decimal(&mut s, *record as u64);
                push_str(&mut s, " is truncated");
            },
            Error::DependencyMissing { tag } => {
                push_str(&mut s, "scene references missing ");
                push_tag(&mut s, tag);
                push_str(&mut s, " area");
            },
            Error::PairedMissing { tag, paired } => {
                push_tag(&mut s, tag);
                push_str(&mut s, " requires paired ");
                push_tag(&mut s, paired);
                push_str(&mut s, " area");
            },
            Error::PairedCountsDiffer { tag } => {
                push_tag(&mut s, tag);
                push_str(&mut s, " paired area counts differ");
            },
            Error::NotBundled { tag } => {
                push_str(&mut s, "scene references missing ");
                push_tag(&mut s, tag);
                push_str(&mut s, " dependency");
            },
            Error::EntryOutOfRange { tag, index } => {
                push_tag(&mut s, tag);
                push_str(&mut s, " record ");
                push_decimal(&mut s, *index as u64);
                push_str(&mut s, " is out of range");
            },
            Error::BundlesDiffer => push_str(&mut s, "dependency area formats or record sizes differ"),
            Error::TooManyToEncode => push_str(&mut s, "too many records to encode"),
            Error::RecordSizeChanged => push_str(&mut s, "record size changed while repackaging"),
            Error::UnknownArea { tag } => {
                push_str(&mut s, "cannot preserve unknown area ");
                push_tag(&mut s, tag);
                push_str(&mut s, " while rebuilding the area table");
            },
            Error::TooManyAreas => push_str(&mut s, "too many SVD areas"),
            Error::SceneSizesDiffer { target, source } => {
                push_str(&mut s, "PRFa record sizes differ (target ");
                push_decimal(&mut s, *target as u64);
                push_str(&mut s, ", source ");
                push_decimal(&mut s, *source as u64);
                push_str(&mut s, ")");
            },
            Error::SceneFormatsDiffer => push_str(&mut s, "source and target use different PRFa format versions"),
            Error::NameFieldShort { tag } => {
                push_tag(&mut s, tag);
                push_str(&mut s, " record is shorter than its name field");
            },
            Error::NotAToneBank => push_str(&mut s, "not an SVZ tone bank — use extract/merge for scene banks"),
            Error::NoToneArea => push_str(&mut s, "no tone area in this SVZ (expected PATa or RHYa)"),
            Error::WaveEntryTruncated { index } => {
                push_str(&mut s, "USDa directory entry ");
                push_decimal(&mut s, *index as u64);
                push_str(&mut s, " is truncated");
            },
            Error::WaveSectionBeyond { index } => {
                push_str(&mut s, "USDa section ");
                push_decimal(&mut s, *index as u64);
                push_str(&mut s, " exceeds the area");
            },
            Error::NoTones => push_str(&mut s, "at least one tone index is required"),
            Error::ToneOutOfRange { index, count } => {
                push_str(&mut s, "tone ");
                push_decimal(&mut s, *index as u64);
                push_str(&mut s, " is out of range (the bank has ");
                push_decimal(&mut s, *count as u64);
                push_str(&mut s, ", numbered 0..");
                let last = if *count == 0 {
                    0
                } else {
                    *count - 1
                };
                push_decimal(&mut s, last as u64);
                push_str(&mut s, ")");
            },
            Error::EnginesDiffer { target, source } => {
                push_str(&mut s, "cannot merge a ");
                push_tag(&mut s, source);
                push_str(&mut s, " bank into a ");
                push_tag(&mut s, target);
                push_str(&mut s, " bank");
            },
            Error::ToneSizesDiffer => push_str(&mut s, "tone record sizes differ between the two banks"),
            Error::NoSlotArea => push_str(&mut s, "tones reference samples but the bank has no USPa area"),
            Error::SampledWithoutSlots => push_str(&mut s, "sampled tone without a USPa area"),
            Error::MergedWithoutSlots => push_str(&mut s, "sampled tones without a USPa area"),
            Error::NoWaveform { slot } => {
                push_str(&mut s, "no waveform data for sample slot ");
                push_decimal(&mut s, *slot as u64);
            },
            Error::AreaRecordOutOfRange { tag, index, count } => {
                push_tag(&mut s, tag);
                push_str(&mut s, " record ");
                push_decimal(&mut s, *index as u64);
                push_str(&mut s, " is out of range (area has ");
                push_decimal(&mut s, *count as u64);
                push_str(&mut s, ")");
            },
            Error::DifferentSamples { tag } => {
                push_str(&mut s, "cannot merge two ");
                push_tag(&mut s, tag);
                push_str(&mut s, " banks that carry different user samples — a ");
                push_tag(&mut s, tag);
                push_str(&mut s, " record's sample references are not decoded, so colliding slots cannot be renumbered without silently breaking them");
            },
            Error::NotAToneArea { tag } => {
                push_tag(&mut s, tag);
                push_str(&mut s, " is not a user tone area");
            },
            Error::NoSampleSlots => push_str(&mut s, "at least one sample slot is required"),
            Error::NoSampleArea => push_str(
                &mut s,
                "this file has no SMPa area — only a full backup carries user sample audio",
            ),
            Error::SampleSlotOutOfRange { slot, count } => {
                push_str(&mut s, "sample slot ");
                push_decimal(&mut s, *slot as u64);
                push_str(&mut s, " is out of range (the file has ");
                push_decimal(&mut s, *count as u64);
                push_str(&mut s, ")");
            },
            Error::SmpdTruncated => push_str(&mut s, "SMPd section truncated at offset 0x24"),
            Error::SmpdShort => push_str(&mut s, "SMPd section is shorter than its header"),
            Error::NoToneIndexes => push_str(&mut s, "at least one tone index is required"),
            Error::SampleRefsNotDecoded { tag } => {
                push_str(&mut s, "a ");
                push_tag(&mut s, tag);
                push_str(
                    &mut s,
                    " record's sample references are not decoded, so an export could not tell which audio to carry — and a tone bank missing its samples plays the wrong sound silently",
                );
            },
            Error::AlreadySvz => push_str(&mut s, "this is already an SVZ — `tonebank::extract_tones` repackages one"),
            Error::ExportToneOutOfRange { tag, index, count } => {
                push_str(&mut s, "tone ");
                push_decimal(&mut s, *index as u64);
                push_str(&mut s, " is out of range (");
                push_tag(&mut s, tag);
                push_str(&mut s, " holds ");
                push_decimal(&mut s, *count as u64);
                push_str(&mut s, ", numbered 0..");
                push_decimal(&mut s, if *count == 0 { 0 } else { *count as u64 - 1 });
                push_str(&mut s, ")");
            },
            Error::NoSuchArea { tag } => {
                push_str(&mut s, "this file has no ");
                push_tag(&mut s, tag);
                push_str(&mut s, " area");
            },
            Error::Rejected { .. } => {},
            Error::TooManyAreasSvz => push_str(&mut s, "too many areas for an SVZ"),
        }
        s
    }
}

} // verus!
