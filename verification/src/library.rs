//! What a sound library catalogues and shows: assets, where they came from, and how a list of
//! them is asked for.
//!
//! The catalogue itself lives in a database beside the files it manages; these are the values it
//! hands out, and the few rules that are decided on them rather than in a query.

use vstd::prelude::*;
use vstd::string::StringSliceAdditionalSpecFns;

use crate::address::{row_tag, row_type, AREA_COUNT};
use crate::codec::{bundled, check_name, is_bundled, is_placeholder, is_placeholder_name, read_bundled_tones};
use crate::container::Area;
use crate::requirements::scan::{record_bytes, record_in};
use crate::model::ToneAddress;
use crate::requirements::{str_equal, Requirements};
use crate::role::Role;
use crate::container::svd::{envelope_error, parses_as};
use crate::container::{Raw, Svd};
use crate::error::message_text;
use crate::text::{decimal, hex2, hex_digit, lossy_text, push_decimal, push_hex2, push_str, str_trim, trim, trim_end, utf8_lossy};
use crate::verify::{check, fault_text, file_check, problem_text, Fault, Problem};
use crate::{Error, Result};

verus! {

/// The two things the main library browses. Samples live in their own view, so they are not an
/// asset kind.
#[derive(Debug, Clone, Copy, PartialEq, Eq)]
pub enum AssetKind {
    Scene,
    Tone,
}

/// The label a kind is stored under.
pub open spec fn kind_label(k: AssetKind) -> Seq<char> {
    match k {
        AssetKind::Scene => "scene"@,
        AssetKind::Tone => "tone"@,
    }
}

/// The kind a stored label names, if any.
pub open spec fn kind_of_label(s: Seq<char>) -> Option<AssetKind> {
    if s == "scene"@ {
        Some(AssetKind::Scene)
    } else if s == "tone"@ {
        Some(AssetKind::Tone)
    } else {
        None
    }
}

/// Reading back the label a kind is stored under gives the kind.
pub proof fn law_kind_label_round_trip(k: AssetKind)
    ensures
        kind_of_label(kind_label(k)) == Some(k),
{
    reveal_strlit("scene");
    reveal_strlit("tone");
    assert("scene"@ != "tone"@) by {
        assert("scene"@.len() != "tone"@.len());
    }
}

impl AssetKind {
    pub fn as_str(self) -> (s: &'static str)
        ensures
            s@ == kind_label(self),
    {
        match self {
            AssetKind::Scene => "scene",
            AssetKind::Tone => "tone",
        }
    }

    /// The kind a stored label names, if it names one.
    pub fn parse(s: &str) -> (r: Option<AssetKind>)
        ensures
            r == kind_of_label(s@),
    {
        if str_equal(s, "scene") {
            Some(AssetKind::Scene)
        } else if str_equal(s, "tone") {
            Some(AssetKind::Tone)
        } else {
            None
        }
    }
}

/// One import, browsable as a group.
#[derive(Debug, Clone)]
pub struct Source {
    pub id: i64,
    pub name: String,
    pub vendor: String,
    pub url: String,
    pub licence_note: String,
    pub note: String,
    pub origin_path: String,
    /// Unix seconds.
    pub imported_at: i64,
    pub archived_at: Option<i64>,
    pub file_count: i64,
    pub asset_count: i64,
    /// The files this source contributed.
    pub files: Vec<LibraryFile>,
}

/// Provenance supplied at import. Every field is optional: an incomplete note never blocks an
/// import.
#[derive(Debug, Clone, Default)]
pub struct SourceInfo {
    pub name: String,
    pub vendor: String,
    pub url: String,
    pub licence_note: String,
    pub note: String,
}

/// A managed copy of an imported file.
#[derive(Debug, Clone)]
pub struct LibraryFile {
    pub id: i64,
    pub source_id: i64,
    pub file_name: String,
    pub origin_path: String,
    pub content_hash: String,
    pub size: i64,
    pub stored_path: String,
    /// The file extension, lowercased.
    pub kind: String,
    /// What the file is for: a backup and a scene export are both `.svd`.
    pub role: Role,
    pub status: FileStatus,
    /// Why a file is `Invalid`, or what was odd about a valid one.
    pub problems: Vec<String>,
    pub asset_count: i64,
    pub sample_count: i64,
}

/// Whether an imported file could be read.
#[derive(Debug, Clone, Copy, PartialEq, Eq)]
pub enum FileStatus {
    /// The file reads.
    Valid,
    Invalid,
}

/// The label a file status is stored under.
pub open spec fn status_label(f: FileStatus) -> Seq<char> {
    match f {
        FileStatus::Valid => "ok"@,
        FileStatus::Invalid => "invalid"@,
    }
}

/// The status a stored label names: anything but `invalid` reads as valid.
pub open spec fn status_of_label(s: Seq<char>) -> FileStatus {
    if s == "invalid"@ {
        FileStatus::Invalid
    } else {
        FileStatus::Valid
    }
}

/// Reading back the label a status is stored under gives the status.
pub proof fn law_status_label_round_trip(f: FileStatus)
    ensures
        status_of_label(status_label(f)) == f,
{
    reveal_strlit("ok");
    reveal_strlit("invalid");
    assert("ok"@ != "invalid"@) by {
        assert("ok"@.len() != "invalid"@.len());
    }
}

impl FileStatus {
    pub fn as_str(self) -> (s: &'static str)
        ensures
            s@ == status_label(self),
    {
        match self {
            FileStatus::Valid => "ok",
            FileStatus::Invalid => "invalid",
        }
    }

    /// The status a stored label names; anything but `invalid` reads as valid.
    pub fn parse(s: &str) -> (r: FileStatus)
        ensures
            r == status_of_label(s@),
    {
        if str_equal(s, "invalid") {
            FileStatus::Invalid
        } else {
            FileStatus::Valid
        }
    }
}

/// Where one asset came from. The same asset can appear in several sources at once.
#[derive(Debug, Clone)]
pub struct AssetSource {
    pub source_id: i64,
    pub source_name: String,
    pub file_id: i64,
    pub file_name: String,
    pub slot: i64,
    pub area: String,
    pub name_at_import: String,
}

/// A saved set of zone switches the player recalls from a pad.
#[derive(Debug, Clone)]
pub struct KeyboardGroupDetail {
    pub number: u8,
    /// Zone numbers (from 1) this group switches on.
    pub zones: Vec<u8>,
}

/// One zone of a scene, as the library shows it.
#[derive(Debug, Clone)]
pub struct ZoneDetail {
    pub number: u8,
    pub enabled: bool,
    pub muted: bool,
    /// Why this zone sounds or does not: `on`, `muted`, `grouped`, `off`, or `unused`.
    pub state: String,
    /// Keyboard groups that switch this zone on, if any.
    pub groups: Vec<u8>,
    pub engine: String,
    pub bank: String,
    pub tone: String,
    pub msb: u8,
    pub lsb: u8,
    pub pc: u8,
    pub key_low: u8,
    pub key_high: u8,
    pub velocity_low: u8,
    pub velocity_high: u8,
    pub level: u8,
    pub pan: i8,
    pub transpose: i8,
    pub octave: i8,
    pub midi_channel: u8,
    pub arpeggio: bool,
}

/// One tone, as the library shows it.
#[derive(Debug, Clone)]
pub struct ToneDetail {
    pub engine: String,
    /// Four-byte area tag the record lives in.
    pub area: String,
    pub index: usize,
    /// The bank it sits in, for a sound that is the instrument's rather than a record in a file.
    pub bank: Option<String>,
    /// The address a zone selects it by.
    pub address: Option<ToneAddress>,
    /// Roland's category for a built-in sound, e.g. `35:Synth Brass`.
    pub category: Option<String>,
    /// Which model of its engine family this is.
    pub model_id: Option<u32>,
    /// The samples, multisamples and expansions this tone plays.
    pub requirements: Requirements,
}

#[derive(Debug, Clone)]
pub struct Tag {
    pub name: String,
    pub count: i64,
}

#[derive(Debug, Clone)]
pub struct Song {
    pub id: i64,
    pub title: String,
    pub artist: String,
    /// Performance key, which is often not the original's.
    pub song_key: String,
    pub notes: String,
    pub created_at: i64,
    pub links: Vec<SongLink>,
}

#[derive(Debug, Clone)]
pub struct SongLink {
    pub asset_id: i64,
    pub asset_name: String,
    pub asset_kind: AssetKind,
    pub note: String,
}

/// Where an asset came from.
#[derive(Debug, Clone, Copy, PartialEq, Eq)]
pub enum Origin {
    /// The instrument ships with it; no file in the library carries it.
    Factory,
    /// It came out of one of the user's imported files.
    User,
}

/// The label an origin is stored under.
pub open spec fn origin_label(o: Origin) -> Seq<char> {
    match o {
        Origin::Factory => "factory"@,
        Origin::User => "user"@,
    }
}

/// The origin a stored label names: anything but `factory` reads as the user's.
pub open spec fn origin_of_label(s: Seq<char>) -> Origin {
    if s == "factory"@ {
        Origin::Factory
    } else {
        Origin::User
    }
}

/// Reading back the label an origin is stored under gives the origin.
pub proof fn law_origin_label_round_trip(o: Origin)
    ensures
        origin_of_label(origin_label(o)) == o,
{
    reveal_strlit("factory");
    reveal_strlit("user");
    assert("factory"@ != "user"@) by {
        assert("factory"@.len() != "user"@.len());
    }
}

impl Origin {
    pub fn as_str(self) -> (s: &'static str)
        ensures
            s@ == origin_label(self),
    {
        match self {
            Origin::Factory => "factory",
            Origin::User => "user",
        }
    }

    /// The origin a stored label names; anything but `factory` reads as the user's.
    pub fn parse(s: &str) -> (r: Origin)
        ensures
            r == origin_of_label(s@),
    {
        if str_equal(s, "factory") {
            Origin::Factory
        } else {
            Origin::User
        }
    }
}

/// What an asset asks of the instrument it is loaded onto.
#[derive(Debug, Clone, Copy, PartialEq, Eq)]
pub enum Plays {
    /// Preset banks alone, and no bundled user tones: it plays anywhere, as it was heard.
    FactoryOnly,
    /// Needs something of the user's, or an expansion that has to be installed.
    NeedsYours,
}

/// What the library list was asked for.
#[derive(Debug, Clone, Default)]
pub struct Query {
    /// Matched against the current name, the imported name, and the note.
    pub search: String,
    pub kind: Option<AssetKind>,
    pub source_id: Option<i64>,
    /// Narrower than `source_id`: one file within a source.
    pub file_id: Option<i64>,
    pub song_id: Option<i64>,
    /// An asset must carry every tag listed.
    pub tags: Vec<String>,
    pub include_archived: bool,
    pub limit: Option<i64>,
    /// Sound engines to keep, by their label. Empty keeps every one.
    pub engines: Vec<String>,
    /// Models and expansions to keep. Empty keeps every one.
    pub models: Vec<String>,
    /// Keep only the instrument's own sounds, or only what the user's files carry.
    pub origin: Option<Origin>,
    /// Keep only what plays anywhere, or only what asks for something first.
    pub plays: Option<Plays>,
    /// Omit assets that need a bundled expansion not installed on this instrument.
    pub hide_uninstalled_expansions: bool,
}

impl Query {
    /// Whether any facet is set. Those are decided from the stored detail rather than in a query
    /// of the catalogue, so the list takes a different path through the same rows when one is.
    pub fn narrows_by_facet(&self) -> (r: bool)
        ensures
            r == (self.engines@.len() > 0 || self.models@.len() > 0 || self.origin is Some
                || self.plays is Some || self.hide_uninstalled_expansions),
    {
        self.engines.len() > 0 || self.models.len() > 0 || self.origin.is_some() || self.plays.is_some()
            || self.hide_uninstalled_expansions
    }
}

/// One value a facet can take, and how many assets in scope take it.
#[derive(Debug, Clone)]
pub struct Facet {
    pub value: String,
    pub count: i64,
}

/// What the current scope can be narrowed by, and by how much.
#[derive(Debug, Clone, Default)]
pub struct Facets {
    pub engines: Vec<Facet>,
    pub models: Vec<Facet>,
    pub origins: Vec<Facet>,
    pub plays: Vec<Facet>,
}

/// What one import did, reported back so nothing is silently dropped.
#[derive(Debug, Clone)]
pub struct ImportReport {
    pub source_id: i64,
    pub source_name: String,
    pub files_imported: usize,
    /// Files already present in this source, byte for byte.
    pub files_skipped: usize,
    pub files_invalid: usize,
    pub scenes_added: usize,
    pub tones_added: usize,
    /// Assets that consolidated onto an existing library item.
    pub assets_consolidated: usize,
    pub samples_catalogued: usize,
    /// Anything the user should see: an unreadable file, a checksum problem, a skipped record.
    pub warnings: Vec<String>,
}

/// How many scenes and how many tones the current scope holds, before the kind filter narrows it.
#[derive(Debug, Clone, Default)]
pub struct KindCounts {
    pub scenes: i64,
    pub tones: i64,
}

/// A count of everything, for the empty state and the header.
#[derive(Debug, Clone)]
pub struct Stats {
    pub scenes: i64,
    pub tones: i64,
    pub sources: i64,
    pub songs: i64,
    pub samples: i64,
}

/// Check a name the way the instrument would, so a name can be refused before it is saved: not
/// blank, and what [`check_name`] accepts (at most 16 characters of printable ASCII), kept
/// without trailing whitespace.
pub fn check_fantom_name(name: &str) -> (r: Result<String>)
    ensures
        trim(name@).len() == 0 ==> (r matches Err(Error::Rejected { message }) && message@
            == "name cannot be empty"@),
        trim(name@).len() > 0 ==> match crate::codec::field_error(name@, crate::address::NAME_LEN, crate::Field::Name) {
            Some(e) => r matches Err(Error::Rejected { message }) && message@ == "unrecognized structure: "@ + crate::error::error_text(e),
            None => r matches Ok(t) && t@ == trim_end(name@),
        },
{
    if str_trim(name).unicode_len() == 0 {
        let mut m = String::new();
        push_str(&mut m, "name cannot be empty");
        assert(m@ =~= "name cannot be empty"@);
        return Err(Error::Rejected { message: m });
    }
    match check_name(name) {
        Ok(t) => {
            let mut s = String::new();
            push_str(&mut s, t);
            assert(s@ =~= t@);
            Ok(s)
        },
        Err(e) => {
            Err(Error::Rejected { message: e.message() })
        },
    }
}


/// The SHA-256 digest of some bytes: a function of the bytes alone.
pub uninterp spec fn sha256(bytes: Seq<u8>) -> Seq<u8>;

/// `sha2::Sha256::digest`, the one-shot SHA-256 of `bytes`. Trusted: the digest is named rather
/// than computed here, and said to be the 32 bytes the crate's `Output` holds.
#[verifier::external_body]
fn sha256_digest(bytes: &[u8]) -> (d: Vec<u8>)
    ensures
        d@ == sha256(bytes@),
        d@.len() == 32,
{
    <sha2::Sha256 as sha2::Digest>::digest(bytes).to_vec()
}

/// Bytes as lowercase hex, two digits each, nothing between.
pub open spec fn hex_string(bytes: Seq<u8>) -> Seq<char>
    decreases bytes.len(),
{
    if bytes.len() == 0 {
        Seq::empty()
    } else {
        hex_string(bytes.drop_last()) + hex2(bytes.last())
    }
}

fn push_hex_string(s: &mut String, bytes: &[u8])
    ensures
        final(s)@ == old(s)@ + hex_string(bytes@),
{
    let ghost start = s@;
    let mut i: usize = 0;
    while i < bytes.len()
        invariant
            i <= bytes@.len(),
            s@ == start + hex_string(bytes@.subrange(0, i as int)),
        decreases bytes@.len() - i,
    {
        assert(bytes@.subrange(0, i + 1).drop_last() =~= bytes@.subrange(0, i as int));
        push_hex2(s, bytes[i]);
        i = i + 1;
        assert(s@ =~= start + hex_string(bytes@.subrange(0, i as int)));
    }
    assert(bytes@.subrange(0, i as int) =~= bytes@);
}

/// A file's content hash, as the library records it: the SHA-256 of its bytes in lowercase hex.
pub fn content_hash(bytes: &[u8]) -> (h: String)
    ensures
        h@ == hex_string(sha256(bytes@)),
{
    let d = sha256_digest(bytes);
    let mut s = String::new();
    push_hex_string(&mut s, d.as_slice());
    assert(s@ =~= hex_string(sha256(bytes@)));
    s
}

/// What makes two records the same library item: the SHA-256 of their kind, area tag and stored
/// bytes, one after the other, in lowercase hex.
pub fn identity_hash(kind: &str, area: &[u8; 4], record: &[u8]) -> (h: String)
    ensures
        h@ == hex_string(sha256(kind.spec_bytes() + area@ + record@)),
{
    let kb = kind.as_bytes();
    let mut all: Vec<u8> = Vec::new();
    let mut i: usize = 0;
    while i < kb.len()
        invariant
            i <= kb@.len(),
            all@ == kb@.subrange(0, i as int),
        decreases kb@.len() - i,
    {
        all.push(kb[i]);
        i = i + 1;
        assert(all@ =~= kb@.subrange(0, i as int));
    }
    assert(kb@.subrange(0, i as int) =~= kb@);
    let ghost head = all@;
    let mut j: usize = 0;
    while j < 4
        invariant
            j <= 4,
            all@ == head + area@.subrange(0, j as int),
        decreases 4 - j,
    {
        all.push(area[j]);
        j = j + 1;
        assert(all@ =~= head + area@.subrange(0, j as int));
    }
    assert(area@.subrange(0, 4) =~= area@);
    let ghost mid = all@;
    let mut k: usize = 0;
    while k < record.len()
        invariant
            k <= record@.len(),
            all@ == mid + record@.subrange(0, k as int),
        decreases record@.len() - k,
    {
        all.push(record[k]);
        k = k + 1;
        assert(all@ =~= mid + record@.subrange(0, k as int));
    }
    assert(record@.subrange(0, k as int) =~= record@);
    content_hash(all.as_slice())
}

} // verus!

verus! {

/// How JSON writes one character inside a string: the quote and the backslash behind a
/// backslash, the common control characters by letter, the other control characters as
/// `\u00XX`, and everything else as it is.
pub open spec fn json_char(c: char) -> Seq<char> {
    if c == '"' {
        seq!['\\', '"']
    } else if c == '\\' {
        seq!['\\', '\\']
    } else if c == '\x08' {
        seq!['\\', 'b']
    } else if c == '\t' {
        seq!['\\', 't']
    } else if c == '\n' {
        seq!['\\', 'n']
    } else if c == '\x0c' {
        seq!['\\', 'f']
    } else if c == '\r' {
        seq!['\\', 'r']
    } else if (c as u32) < 0x20 {
        seq!['\\', 'u', '0', '0', hex_digit(((c as u32) / 16) as nat), hex_digit(((c as u32) % 16) as nat)]
    } else {
        seq![c]
    }
}

/// The characters of `s` as JSON writes them inside a string.
pub open spec fn json_chars(s: Seq<char>) -> Seq<char>
    decreases s.len(),
{
    if s.len() == 0 {
        Seq::empty()
    } else {
        json_chars(s.drop_last()) + json_char(s.last())
    }
}

/// The strings of `v` as JSON string literals, comma-separated.
pub open spec fn json_items(v: Seq<Seq<char>>) -> Seq<char>
    decreases v.len(),
{
    if v.len() == 0 {
        Seq::empty()
    } else if v.len() == 1 {
        seq!['"'] + json_chars(v[0]) + seq!['"']
    } else {
        json_items(v.drop_last()) + seq![','] + seq!['"'] + json_chars(v.last()) + seq!['"']
    }
}

/// A list of strings as a compact JSON array.
pub open spec fn json_string_array(v: Seq<Seq<char>>) -> Seq<char> {
    seq!['['] + json_items(v) + seq![']']
}

/// `serde_json::to_string` on a list of strings, its error dropped. Trusted: it writes the
/// compact array of JSON string literals, escaping as its escape table does, and a list of
/// strings written into memory never fails.
#[verifier::external_body]
fn strings_to_json(v: &Vec<String>) -> (r: Option<String>)
    ensures
        r is Some,
        r is Some ==> r->Some_0@ == json_string_array(v@.map_values(|x: String| x@)),
{
    serde_json::to_string(v).ok()
}

/// A problem list as the catalogue stores it: a JSON array of strings, or `[]` should writing it
/// fail.
pub fn problems_json(problems: &Vec<String>) -> (s: String)
    ensures
        s@ == json_string_array(problems@.map_values(|x: String| x@)),
{
    match strings_to_json(problems) {
        Some(s) => s,
        None => String::from_str("[]"),
    }
}

/// Whether `problems` puts each of `faults`, found in the area its tag names, in words.
pub open spec fn described(problems: Seq<Seq<char>>, faults: Seq<(Seq<u8>, Fault)>) -> bool {
    &&& problems.len() == faults.len()
    &&& forall|k: int| 0 <= k < faults.len() ==> #[trigger] problems[k] == fault_text(faults[k].0, faults[k].1)
}

/// Whether `status` and `problems` are what checking file `s` gives: a file that cannot be
/// framed or walked is invalid with the one error; otherwise it is catalogued, with each
/// geometry or checksum problem in words.
pub open spec fn validated(s: Seq<u8>, status: FileStatus, problems: Seq<Seq<char>>) -> bool {
    match envelope_error(s) {
        Some(e) => status == FileStatus::Invalid && problems == seq![message_text(e)],
        None => forall|svd: Svd| #[trigger]
            parses_as(svd, s) ==> match file_check(s, svd.areas@, svd.areas@.len() as int) {
                Err(e) => status == FileStatus::Invalid && problems == seq![message_text(e)],
                Ok((faults, _, _)) => status == FileStatus::Valid && described(problems, faults),
            },
    }
}

fn problem_messages(problems: &Vec<Problem>) -> (v: Vec<String>)
    ensures
        v@.len() == problems@.len(),
        forall|k: int| 0 <= k < v@.len() ==> #[trigger] v@[k]@ == problem_text(problems@[k]),
{
    let mut v: Vec<String> = Vec::new();
    let mut i: usize = 0;
    while i < problems.len()
        invariant
            i <= problems@.len(),
            v@.len() == i,
            forall|k: int| 0 <= k < i ==> #[trigger] v@[k]@ == problem_text(problems@[k]),
        decreases problems@.len() - i,
    {
        v.push(problems[i].message());
        i = i + 1;
    }
    v
}

proof fn lemma_valid_entry(s: Seq<u8>, svd: Svd, report: crate::verify::Report, v: Seq<Seq<char>>)
    requires
        parses_as(svd, s),
        envelope_error(s) is None,
        forall|other: Svd| #[trigger] parses_as(other, s) ==> other.areas@ == svd.areas@,
        crate::verify::reports(report, s, svd.areas@, svd.areas@.len() as int),
        v.len() == report.problems@.len(),
        forall|k: int| 0 <= k < v.len() ==> #[trigger] v[k] == problem_text(report.problems@[k]),
    ensures
        validated(s, FileStatus::Valid, v),
{
    let (faults, _, _) = file_check(s, svd.areas@, svd.areas@.len() as int)->Ok_0;
    assert(v.len() == faults.len());
    assert forall|k: int| 0 <= k < faults.len() implies #[trigger] v[k] == fault_text(faults[k].0, faults[k].1) by {
        crate::verify::lemma_problem_text(report.problems@[k], faults[k].0, faults[k].1);
    }
    assert(described(v, faults));
    assert forall|other: Svd| #[trigger] parses_as(other, s) implies file_check(
        s,
        other.areas@,
        other.areas@.len() as int,
    ) == file_check(s, svd.areas@, svd.areas@.len() as int) by {
        assert(other.areas@ == svd.areas@);
    }
}

/// Check a file about to be catalogued: whether it can be, and its problems in words.
#[verifier::spinoff_prover]
#[verifier::rlimit(40)]
pub fn validate(raw: &Raw) -> (r: (FileStatus, Vec<String>))
    ensures
        validated(raw@, r.0, r.1@.map_values(|x: String| x@)),
{
    let svd = match Svd::parse(raw) {
        Err(e) => {
            let mut problems: Vec<String> = Vec::new();
            problems.push(e.message());
            proof {
                let ee = envelope_error(raw@)->Some_0;
                assert(message_text(e) == message_text(ee));
                assert(problems@.map_values(|x: String| x@) =~= seq![message_text(ee)]);
            }
            assert(validated(raw@, FileStatus::Invalid, problems@.map_values(|x: String| x@)));
            return (FileStatus::Invalid, problems);
        },
        Ok(svd) => svd,
    };
    proof {
        assert forall|other: Svd| #[trigger] parses_as(other, raw@) implies other.areas@ == svd.areas@ by {
            crate::diff::lemma_areas_unique(other, svd, raw@);
        }
    }
    match check(raw) {
        Err(e) => {
            let mut problems: Vec<String> = Vec::new();
            problems.push(e.message());
            assert(problems@.map_values(|x: String| x@) =~= seq![message_text(e)]);
            assert(validated(raw@, FileStatus::Invalid, problems@.map_values(|x: String| x@)));
            (FileStatus::Invalid, problems)
        },
        Ok(report) => {
            let problems = problem_messages(&report.problems);
            proof {
                assert(parses_as(svd, raw@));
                lemma_valid_entry(raw@, svd, report, problems@.map_values(|x: String| x@));
            }
            (FileStatus::Valid, problems)
        },
    }
}

/// Check a file about to be catalogued: its status, its problems in words, and those problems
/// as the JSON the catalogue stores.
pub fn file_entry(raw: &Raw) -> (r: (FileStatus, Vec<String>, String))
    ensures
        validated(raw@, r.0, r.1@.map_values(|x: String| x@)),
        r.2@ == json_string_array(r.1@.map_values(|x: String| x@)),
{
    let (status, problems) = validate(raw);
    let json = problems_json(&problems);
    (status, problems, json)
}

} // verus!

verus! {

/// `v` with each repeat of an earlier entry left out.
pub open spec fn first_occurrences(v: Seq<Seq<char>>) -> Seq<Seq<char>>
    decreases v.len(),
{
    if v.len() == 0 {
        Seq::empty()
    } else if first_occurrences(v.drop_last()).contains(v.last()) {
        first_occurrences(v.drop_last())
    } else {
        first_occurrences(v.drop_last()).push(v.last())
    }
}

/// How many warnings an import report keeps before summing up the rest.
pub const WARNINGS_KEPT: usize = 40;

/// An import's warnings as the report shows them: each once, in the order first raised, and no
/// more than [`WARNINGS_KEPT`], a last line saying how many more there were.
pub open spec fn tidied(v: Seq<Seq<char>>) -> Seq<Seq<char>> {
    let d = first_occurrences(v);
    if d.len() > WARNINGS_KEPT {
        d.take(WARNINGS_KEPT as int).push("… and "@ + decimal((d.len() - WARNINGS_KEPT) as nat) + " more"@)
    } else {
        d
    }
}

fn holds(v: &Vec<String>, s: &String) -> (b: bool)
    ensures
        b == v@.map_values(|x: String| x@).contains(s@),
{
    let mut i: usize = 0;
    while i < v.len()
        invariant
            i <= v@.len(),
            forall|k: int| 0 <= k < i ==> v@[k]@ != s@,
        decreases v@.len() - i,
    {
        if str_equal(v[i].as_str(), s.as_str()) {
            assert(v@.map_values(|x: String| x@)[i as int] == s@);
            return true;
        }
        i = i + 1;
    }
    proof {
        let m = v@.map_values(|x: String| x@);
        assert forall|k: int| 0 <= k < m.len() implies #[trigger] m[k] != s@ by {
            assert(m[k] == v@[k]@);
        }
    }
    false
}

/// Collapse repeated warnings and cap the list, keeping a last line that says how much was left
/// out rather than cutting it short in silence.
pub fn tidy(warnings: Vec<String>) -> (w: Vec<String>)
    ensures
        w@.map_values(|x: String| x@) == tidied(warnings@.map_values(|x: String| x@)),
{
    let ghost all = warnings@.map_values(|x: String| x@);
    let mut out: Vec<String> = Vec::new();
    let mut i: usize = 0;
    while i < warnings.len()
        invariant
            i <= warnings@.len(),
            all == warnings@.map_values(|x: String| x@),
            out@.map_values(|x: String| x@) == first_occurrences(all.take(i as int)),
        decreases warnings@.len() - i,
    {
        assert(all.take(i + 1).drop_last() =~= all.take(i as int));
        if !holds(&out, &warnings[i]) {
            let ghost before = out@;
            out.push(warnings[i].clone());
            assert(out@.map_values(|x: String| x@) =~= before.map_values(|x: String| x@).push(all[i as int]));
        }
        i = i + 1;
    }
    assert(all.take(warnings@.len() as int) =~= all);
    if out.len() > WARNINGS_KEPT {
        let hidden = out.len() - WARNINGS_KEPT;
        let ghost d = out@.map_values(|x: String| x@);
        out.truncate(WARNINGS_KEPT);
        let mut last = String::from_str("… and ");
        push_decimal(&mut last, hidden as u64);
        push_str(&mut last, " more");
        let ghost kept = out@;
        out.push(last);
        assert(out@.map_values(|x: String| x@) =~= d.take(WARNINGS_KEPT as int).push(
            "… and "@ + decimal(hidden as nat) + " more"@,
        ));
    }
    out
}

} // verus!

verus! {

/// One record of a file, ready to become a library item.
#[derive(Debug, Clone)]
pub struct Candidate {
    pub kind: AssetKind,
    /// What makes it the same item wherever it turns up: see [`identity_hash`].
    pub identity: String,
    pub name: String,
    pub memo: String,
    pub engine: String,
    pub detail: ToneDetail,
}

/// The kind a tone's identity is hashed under, as bytes: `tone`.
pub open spec fn tone_kind() -> Seq<u8> {
    seq![0x74u8, 0x6f, 0x6e, 0x65]
}

/// Whether `c` is the candidate for the bundled tone `t` = (row, index, name) whose record holds
/// `record`.
pub open spec fn is_tone_candidate(c: Candidate, t: (int, int, Seq<char>), record: Seq<u8>) -> bool {
    &&& c.kind == AssetKind::Tone
    &&& c.identity@ == hex_string(sha256(tone_kind() + row_tag(t.0) + record))
    &&& c.name@ == t.2
    &&& c.memo@.len() == 0
    &&& c.engine@ == row_type(t.0).spec_label()@
    &&& c.detail.engine@ == row_type(t.0).spec_label()@
    &&& c.detail.area@ == utf8_lossy(row_tag(t.0))
    &&& c.detail.index == t.1
    &&& c.detail.bank is None
    &&& c.detail.address is None
    &&& c.detail.category is None
    &&& c.detail.model_id is None
    &&& c.detail.requirements.engines@.len() == 0
    &&& c.detail.requirements.user_tones@.len() == 0
    &&& c.detail.requirements.banks@.len() == 0
    &&& c.detail.requirements.samples@.len() == 0
    &&& c.detail.requirements.multisamples@.len() == 0
    &&& c.detail.requirements.wave_expansions@.len() == 0
    &&& c.detail.requirements.unclassified@.len() == 0
    &&& !c.detail.requirements.carries_audio
}

/// The bundled tones of `ts` a library takes in from file `s` with areas `areas`, each with its
/// record: those not named as an unused slot whose record the file holds.
pub open spec fn kept_tones(s: Seq<u8>, areas: Seq<Area>, ts: Seq<(int, int, Seq<char>)>) -> Seq<
    ((int, int, Seq<char>), Seq<u8>),
>
    decreases ts.len(),
{
    if ts.len() == 0 {
        Seq::empty()
    } else {
        let t = ts.last();
        let rest = kept_tones(s, areas, ts.drop_last());
        if is_placeholder(t.2) {
            rest
        } else {
            match record_in(s, areas, row_tag(t.0), t.1) {
                Some(r) => rest.push((t, r)),
                None => rest,
            }
        }
    }
}

/// The user tones a file offers its library, in the order the file holds them: every bundled
/// tone not named as an unused slot, identified by its area and stored bytes.
pub fn tone_candidates(raw: &Raw) -> (r: Result<Vec<Candidate>>)
    ensures
        envelope_error(raw@) is Some ==> r is Err,
        envelope_error(raw@) is None ==> r is Ok,
        forall|svd: Svd| #[trigger]
            parses_as(svd, raw@) ==> (r matches Ok(v) && {
                let kept = kept_tones(raw@, svd.areas@, bundled(raw@, AREA_COUNT as int));
                &&& v@.len() == kept.len()
                &&& forall|k: int| 0 <= k < v@.len() ==> is_tone_candidate(#[trigger] v@[k], kept[k].0, kept[k].1)
            }),
{
    let svd = Svd::parse(raw)?;
    proof {
        assert forall|other: Svd| #[trigger] parses_as(other, raw@) implies other.areas@ == svd.areas@ by {
            crate::diff::lemma_areas_unique(other, svd, raw@);
        }
    }
    let tones = match read_bundled_tones(raw) {
        Ok(t) => t,
        Err(e) => {
            return Err(e);
        },
    };
    let ghost ts = bundled(raw@, AREA_COUNT as int);
    let kind = "tone";
    proof {
        reveal_strlit("tone");
        broadcast use vstd::string::is_ascii_spec_bytes;
        assert(vstd::string::is_ascii(kind));
        assert(kind.spec_bytes() =~= tone_kind());
    }
    let mut out: Vec<Candidate> = Vec::new();
    let mut i: usize = 0;
    while i < tones.len()
        invariant
            i <= tones@.len(),
            tones@.len() == ts.len(),
            kind.spec_bytes() == tone_kind(),
            forall|k: int| 0 <= k < tones@.len() ==> is_bundled(#[trigger] tones@[k], ts[k]),
            out@.len() == kept_tones(raw@, svd.areas@, ts.take(i as int)).len(),
            forall|k: int|
                0 <= k < out@.len() ==> is_tone_candidate(
                    #[trigger] out@[k],
                    kept_tones(raw@, svd.areas@, ts.take(i as int))[k].0,
                    kept_tones(raw@, svd.areas@, ts.take(i as int))[k].1,
                ),
        decreases tones@.len() - i,
    {
        let t = &tones[i];
        assert(is_bundled(*t, ts[i as int]));
        assert(ts.take(i + 1).drop_last() =~= ts.take(i as int));
        let ghost prev = kept_tones(raw@, svd.areas@, ts.take(i as int));
        if !is_placeholder_name(t.name.as_str()) {
            match record_bytes(raw, &svd, &t.area, t.index) {
                Some(record) => {
                    let identity = identity_hash(kind, &t.area, record);
                    let area = lossy_text(&t.area);
                    let engine = t.tone_type.label();
                    let c = Candidate {
                        kind: AssetKind::Tone,
                        identity,
                        name: t.name.clone(),
                        memo: String::new(),
                        engine: engine.to_string(),
                        detail: ToneDetail {
                            engine: engine.to_string(),
                            area,
                            index: t.index,
                            bank: None,
                            address: None,
                            category: None,
                            model_id: None,
                            requirements: Requirements::default(),
                        },
                    };
                    let ghost before = out@;
                    out.push(c);
                    proof {
                        let next = kept_tones(raw@, svd.areas@, ts.take(i + 1));
                        assert(next == prev.push((ts[i as int], record@)));
                        assert forall|k: int| 0 <= k < out@.len() implies is_tone_candidate(
                            #[trigger] out@[k],
                            next[k].0,
                            next[k].1,
                        ) by {
                            if k < prev.len() {
                                assert(out@[k] == before[k]);
                            }
                        }
                    }
                },
                None => {},
            }
        }
        i = i + 1;
    }
    assert(ts.take(tones@.len() as int) =~= ts);
    Ok(out)
}

} // verus!
