//! What a file is for, which its envelope alone does not say.
//!
//! The envelope distinguishes `SVD5` from `SVZa`, and that is the right distinction for framing
//! bytes. It is not enough to describe a file: a whole-instrument backup and a three-scene export
//! are both `SVD5`.
//!
//! A backup is a dump of every memory area the instrument has; an export writes only the areas
//! its content needs. System settings travel with every `SVD5`, so they do not separate the two.
//! The sample bank does: its three areas appear in backups and in no export — a backup of an
//! instrument holding no user samples still writes all three. The full 512-slot performance bank
//! corroborates it and is kept as a second signal.

use vstd::prelude::*;

use crate::address::tag4;
use crate::bytes::{le32, tag_of};
use crate::codec::{area_body, prfa};
use crate::container::records::table_error;
use crate::container::svd::{
    area_count, envelope_error, first_area, first_entry, kind_of, lemma_first_entry, parses_as,
};
use crate::container::{Kind, Raw, RecordTable, Svd};

verus! {

/// Scene slots a FANTOM-6/7/8 performance bank holds. A file declaring this many carries the whole
/// bank rather than a selection from it.
pub const FULL_SCENE_BANK: usize = 512;

/// Areas that hold tone records. An `SVZa` carrying any of them is a tone export rather than a
/// sample companion.
pub open spec fn tone_areas() -> Seq<Seq<u8>> {
    seq![
        tag4('P', 'A', 'T', 'a'),
        tag4('R', 'H', 'Y', 'a'),
        tag4('I', 'N', 'S', 'a'),
        tag4('Z', 'A', 'P', 'a'),
        tag4('Z', 'E', 'P', 'a'),
        tag4('M', 'D', 'L', 'a'),
        tag4('A', 'C', 'B', 'a'),
        tag4('D', 'C', 'W', 'a'),
    ]
}

/// The user sample bank a backup dumps whole: slot directory, multisamples and waveforms.
pub open spec fn sample_bank_areas() -> Seq<Seq<u8>> {
    seq![tag4('S', 'M', 'P', 'a'), tag4('M', 'L', 'S', 'a'), tag4('U', 'S', 'D', 'a')]
}

/// Areas that carry user audio in an `SVZa` companion, which names its slot directory `USPa` and
/// its multisamples `MSPa`.
pub open spec fn companion_sample_areas() -> Seq<Seq<u8>> {
    seq![tag4('U', 'S', 'P', 'a'), tag4('M', 'S', 'P', 'a')]
}

/// What a readable Fantom file is for.
#[derive(Debug, Clone, Copy, PartialEq, Eq)]
pub enum Role {
    /// A whole-instrument backup: the full scene bank, its tone banks, and its user sampling.
    Backup,
    /// A self-contained scene export — scenes plus the user tones they need.
    SceneBank,
    /// An `SVZa` tone export, which may carry its own samples.
    ToneBank,
    /// An `SVZa` holding user sampling and nothing else.
    SampleBank,
    /// Readable, but not a shape this version recognises.
    Unknown,
}

pub open spec fn backup_word() -> Seq<char> {
    seq!['b', 'a', 'c', 'k', 'u', 'p']
}

pub open spec fn scene_bank_word() -> Seq<char> {
    seq!['s', 'c', 'e', 'n', 'e', '-', 'b', 'a', 'n', 'k']
}

pub open spec fn tone_bank_word() -> Seq<char> {
    seq!['t', 'o', 'n', 'e', '-', 'b', 'a', 'n', 'k']
}

pub open spec fn sample_bank_word() -> Seq<char> {
    seq!['s', 'a', 'm', 'p', 'l', 'e', '-', 'b', 'a', 'n', 'k']
}

/// The role a stored spelling names; anything unrecognised reads as unknown.
pub open spec fn role_named(s: Seq<char>) -> Role {
    if s == backup_word() {
        Role::Backup
    } else if s == scene_bank_word() {
        Role::SceneBank
    } else if s == tone_bank_word() {
        Role::ToneBank
    } else if s == sample_bank_word() {
        Role::SampleBank
    } else {
        Role::Unknown
    }
}

fn chars_are(s: &str, w: &[char]) -> (r: bool)
    ensures
        r == (s@ == w@),
{
    let n = s.unicode_len();
    if n != w.len() {
        return false;
    }
    let mut i: usize = 0;
    while i < n
        invariant
            n == s@.len(),
            n == w@.len(),
            i <= n,
            forall|j: int| 0 <= j < i ==> s@[j] == w@[j],
        decreases n - i,
    {
        if s.get_char(i) != w[i] {
            return false;
        }
        i = i + 1;
    }
    assert(s@ =~= w@);
    true
}

impl Role {
    pub open spec fn spec_as_str(self) -> &'static str {
        match self {
            Role::Backup => "backup",
            Role::SceneBank => "scene-bank",
            Role::ToneBank => "tone-bank",
            Role::SampleBank => "sample-bank",
            Role::Unknown => "unknown",
        }
    }

    /// The stable spelling, for storing and for the wire.
    pub fn as_str(self) -> (s: &'static str)
        ensures
            s == self.spec_as_str(),
    {
        match self {
            Role::Backup => "backup",
            Role::SceneBank => "scene-bank",
            Role::ToneBank => "tone-bank",
            Role::SampleBank => "sample-bank",
            Role::Unknown => "unknown",
        }
    }

    /// The inverse of [`Role::as_str`]; anything unrecognised reads as [`Role::Unknown`].
    pub fn parse(s: &str) -> (r: Role)
        ensures
            r == role_named(s@),
    {
        let backup: [char; 6] = ['b', 'a', 'c', 'k', 'u', 'p'];
        let scene_bank: [char; 10] = ['s', 'c', 'e', 'n', 'e', '-', 'b', 'a', 'n', 'k'];
        let tone_bank: [char; 9] = ['t', 'o', 'n', 'e', '-', 'b', 'a', 'n', 'k'];
        let sample_bank: [char; 11] = ['s', 'a', 'm', 'p', 'l', 'e', '-', 'b', 'a', 'n', 'k'];
        assert(backup@ =~= backup_word());
        assert(scene_bank@ =~= scene_bank_word());
        assert(tone_bank@ =~= tone_bank_word());
        assert(sample_bank@ =~= sample_bank_word());
        if chars_are(s, &backup) {
            Role::Backup
        } else if chars_are(s, &scene_bank) {
            Role::SceneBank
        } else if chars_are(s, &tone_bank) {
            Role::ToneBank
        } else if chars_are(s, &sample_bank) {
            Role::SampleBank
        } else {
            Role::Unknown
        }
    }

    pub open spec fn spec_label(self) -> &'static str {
        match self {
            Role::Backup => "backup",
            Role::SceneBank => "scenes",
            Role::ToneBank => "tones",
            Role::SampleBank => "samples",
            Role::Unknown => "?",
        }
    }

    /// A short word for a label or a table column.
    pub fn label(self) -> (s: &'static str)
        ensures
            s == self.spec_label(),
    {
        match self {
            Role::Backup => "backup",
            Role::SceneBank => "scenes",
            Role::ToneBank => "tones",
            Role::SampleBank => "samples",
            Role::Unknown => "?",
        }
    }
}

/// Reading a role's spelling back gives the role: `parse` undoes `as_str`.
pub proof fn law_spelling_round_trips(role: Role)
    ensures
        role_named(role.spec_as_str()@) == role,
{
    reveal_strlit("backup");
    reveal_strlit("scene-bank");
    reveal_strlit("tone-bank");
    reveal_strlit("sample-bank");
    reveal_strlit("unknown");
    assert("backup"@ =~= backup_word());
    assert("scene-bank"@ =~= scene_bank_word());
    assert("tone-bank"@ =~= tone_bank_word());
    assert("sample-bank"@ =~= sample_bank_word());
    assert("unknown"@.len() == 7);
}

/// Whether file `s`'s area table lists an area tagged `tag`.
pub open spec fn file_has(s: Seq<u8>, tag: Seq<u8>) -> bool {
    first_entry(s, tag, area_count(s) as int) is Some
}

/// Whether file `s` has any of the areas `tags`.
pub open spec fn has_any(s: Seq<u8>, tags: Seq<Seq<u8>>) -> bool {
    exists|i: int| 0 <= i < tags.len() && file_has(s, #[trigger] tags[i])
}

/// How many scene slots file `s`'s performance area declares, empty ones included, when it is a
/// record table.
pub open spec fn scene_capacity(s: Seq<u8>) -> Option<int> {
    match area_body(s, prfa()) {
        Some(b) => if b.len() >= 8 && le32(b, 4) != 0 {
            Some(le32(b, 0) as int)
        } else {
            None
        },
        None => None,
    }
}

/// What file `s` is for, read from its area table.
pub open spec fn role_of(s: Seq<u8>) -> Role {
    if envelope_error(s) is Some {
        Role::Unknown
    } else if kind_of(s) == Some(Kind::Svz) {
        if has_any(s, tone_areas()) {
            Role::ToneBank
        } else if has_any(s, companion_sample_areas()) || has_any(s, sample_bank_areas()) {
            Role::SampleBank
        } else {
            Role::Unknown
        }
    } else if !file_has(s, prfa()) {
        Role::Unknown
    } else if has_any(s, sample_bank_areas()) || (scene_capacity(s) matches Some(n) && n
        >= FULL_SCENE_BANK) {
        Role::Backup
    } else {
        Role::SceneBank
    }
}

fn lists(raw: &Raw, svd: &Svd, tag: &[u8; 4]) -> (r: bool)
    requires
        parses_as(*svd, raw@),
    ensures
        r == file_has(raw@, tag@),
{
    proof {
        lemma_first_entry(*svd, raw@, tag@, svd.areas@.len() as int);
        assert(svd.areas@.subrange(0, svd.areas@.len() as int) =~= svd.areas@);
    }
    svd.area(tag).is_some()
}

fn has_one_of(raw: &Raw, svd: &Svd, tags: &[[u8; 4]]) -> (r: bool)
    requires
        parses_as(*svd, raw@),
    ensures
        r == exists|i: int| 0 <= i < tags@.len() && file_has(raw@, (#[trigger] tags@[i])@),
{
    let mut i: usize = 0;
    while i < tags.len()
        invariant
            parses_as(*svd, raw@),
            i <= tags@.len(),
            forall|j: int| 0 <= j < i ==> !file_has(raw@, (#[trigger] tags@[j])@),
        decreases tags@.len() - i,
    {
        if lists(raw, svd, &tags[i]) {
            return true;
        }
        i = i + 1;
    }
    false
}

proof fn lemma_has_any(s: Seq<u8>, tags: Seq<[u8; 4]>, spec_tags: Seq<Seq<u8>>)
    requires
        tags.len() == spec_tags.len(),
        forall|i: int| 0 <= i < tags.len() ==> (#[trigger] tags[i])@ == spec_tags[i],
    ensures
        (exists|i: int| 0 <= i < tags.len() && file_has(s, (#[trigger] tags[i])@)) == has_any(
            s,
            spec_tags,
        ),
{
    if has_any(s, spec_tags) {
        let i = choose|i: int| 0 <= i < spec_tags.len() && file_has(s, #[trigger] spec_tags[i]);
        assert(file_has(s, tags[i]@));
    }
}

/// Classify a file from its area table.
pub fn of(raw: &Raw) -> (r: Role)
    ensures
        r == role_of(raw@),
{
    let svd = match Svd::parse(raw) {
        Ok(svd) => svd,
        Err(_) => {
            return Role::Unknown;
        },
    };
    let tone: [[u8; 4]; 8] = [
        tag_of(0x50, 0x41, 0x54, 0x61),
        tag_of(0x52, 0x48, 0x59, 0x61),
        tag_of(0x49, 0x4e, 0x53, 0x61),
        tag_of(0x5a, 0x41, 0x50, 0x61),
        tag_of(0x5a, 0x45, 0x50, 0x61),
        tag_of(0x4d, 0x44, 0x4c, 0x61),
        tag_of(0x41, 0x43, 0x42, 0x61),
        tag_of(0x44, 0x43, 0x57, 0x61),
    ];
    let companion: [[u8; 4]; 2] = [tag_of(0x55, 0x53, 0x50, 0x61), tag_of(0x4d, 0x53, 0x50, 0x61)];
    let bank: [[u8; 4]; 3] = [
        tag_of(0x53, 0x4d, 0x50, 0x61),
        tag_of(0x4d, 0x4c, 0x53, 0x61),
        tag_of(0x55, 0x53, 0x44, 0x61),
    ];
    proof {
        lemma_has_any(raw@, tone@, tone_areas());
        lemma_has_any(raw@, companion@, companion_sample_areas());
        lemma_has_any(raw@, bank@, sample_bank_areas());
    }
    if matches!(svd.kind, Kind::Svz) {
        return if has_one_of(raw, &svd, &tone) {
            Role::ToneBank
        } else if has_one_of(raw, &svd, &companion) || has_one_of(raw, &svd, &bank) {
            Role::SampleBank
        } else {
            Role::Unknown
        };
    }
    let prfa_tag = tag_of(0x50, 0x52, 0x46, 0x61);
    assert(prfa_tag@ =~= prfa());
    if !lists(raw, &svd, &prfa_tag) {
        return Role::Unknown;
    }
    let dumps_whole_memory = has_one_of(raw, &svd, &bank);
    let whole_scene_bank = match scene_capacity_of(raw, &svd) {
        Some(n) => n >= FULL_SCENE_BANK,
        None => false,
    };
    if dumps_whole_memory || whole_scene_bank {
        Role::Backup
    } else {
        Role::SceneBank
    }
}

/// How many scene slots the file's performance area declares, empty ones included.
fn scene_capacity_of(raw: &Raw, svd: &Svd) -> (r: Option<usize>)
    requires
        parses_as(*svd, raw@),
    ensures
        r matches Some(n) ==> scene_capacity(raw@) == Some(n as int),
        r is None ==> scene_capacity(raw@) is None,
{
    let tag = tag_of(0x50, 0x52, 0x46, 0x61);
    proof {
        assert(tag@ =~= prfa());
        lemma_first_entry(*svd, raw@, prfa(), svd.areas@.len() as int);
        assert(svd.areas@.subrange(0, svd.areas@.len() as int) =~= svd.areas@);
        crate::container::svd::lemma_first_area(svd.areas@, prfa());
        if let Some(i) = first_area(svd.areas@, prfa()) {
            assert(crate::container::svd::is_entry(
                svd.areas@[i],
                raw@,
                crate::container::svd::PREAMBLE_LEN + 16 * i,
            ));
        }
    }
    match RecordTable::from_svd(raw, svd, &tag) {
        Ok(Some(table)) => Some(table.declared_count),
        _ => None,
    }
}

} // verus!

verus! {

/// An `SVZa` whose area table lists a user tone area is a tone bank, whatever else it holds:
/// ZEN-Core tones (`PATa`), drum kits (`RHYa`) and their instrument sets (`INSa`), SN-AP and
/// SN-EP pianos (`ZAPa`, `ZEPa`), model tones (`MDLa`) and ACB tones (`ACBa`, `DCWa`).
pub proof fn law_tone_areas_make_a_tone_bank(s: Seq<u8>, svd: Svd, i: int)
    requires
        parses_as(svd, s),
        svd.kind == Kind::Svz,
        0 <= i < svd.areas@.len(),
        svd.areas@[i].tag@ == seq![0x50u8, 0x41, 0x54, 0x61] || svd.areas@[i].tag@ == seq![0x52u8, 0x48, 0x59, 0x61]
            || svd.areas@[i].tag@ == seq![0x49u8, 0x4e, 0x53, 0x61] || svd.areas@[i].tag@ == seq![0x5au8, 0x41, 0x50, 0x61]
            || svd.areas@[i].tag@ == seq![0x5au8, 0x45, 0x50, 0x61] || svd.areas@[i].tag@ == seq![0x4du8, 0x44, 0x4c, 0x61]
            || svd.areas@[i].tag@ == seq![0x41u8, 0x43, 0x42, 0x61] || svd.areas@[i].tag@ == seq![0x44u8, 0x43, 0x57, 0x61],
    ensures
        role_of(s) == Role::ToneBank,
{
    let tag = svd.areas@[i].tag@;
    let n = svd.areas@.len() as int;
    crate::container::svd::lemma_first_area(svd.areas@, tag);
    lemma_first_entry(svd, s, tag, n);
    assert(svd.areas@.subrange(0, n) =~= svd.areas@);
    assert(file_has(s, tag));
    let t = tone_areas();
    let j: int = if tag == t[0] {
        0
    } else if tag == t[1] {
        1
    } else if tag == t[2] {
        2
    } else if tag == t[3] {
        3
    } else if tag == t[4] {
        4
    } else if tag == t[5] {
        5
    } else if tag == t[6] {
        6
    } else {
        7
    };
    assert(t[j] == tag);
    assert(has_any(s, t));
}

} // verus!

verus! {

proof fn lemma_listed(s: Seq<u8>, svd: Svd, tag: Seq<u8>)
    requires
        parses_as(svd, s),
    ensures
        file_has(s, tag) <==> exists|i: int| 0 <= i < svd.areas@.len() && (#[trigger] svd.areas@[i]).tag@ == tag,
{
    let n = svd.areas@.len() as int;
    crate::container::svd::lemma_first_area(svd.areas@, tag);
    lemma_first_entry(svd, s, tag, n);
    assert(svd.areas@.subrange(0, n) =~= svd.areas@);
}

/// Whether `t` is one of the user tone areas, spelled out.
pub open spec fn is_user_tone_tag(t: Seq<u8>) -> bool {
    t == seq![0x50u8, 0x41, 0x54, 0x61] || t == seq![0x52u8, 0x48, 0x59, 0x61] || t == seq![0x49u8, 0x4e, 0x53, 0x61]
        || t == seq![0x5au8, 0x41, 0x50, 0x61] || t == seq![0x5au8, 0x45, 0x50, 0x61] || t == seq![
        0x4du8,
        0x44,
        0x4c,
        0x61,
    ] || t == seq![0x41u8, 0x43, 0x42, 0x61] || t == seq![0x44u8, 0x43, 0x57, 0x61]
}

/// An `SVZa` that lists no user tone area but does list user audio — a slot directory (`USPa`
/// or `SMPa`), multisamples (`MSPa` or `MLSa`) or waveforms (`USDa`) — is a sample bank.
pub proof fn law_audio_without_tones_makes_a_sample_bank(s: Seq<u8>, svd: Svd, i: int)
    requires
        parses_as(svd, s),
        svd.kind == Kind::Svz,
        forall|x: int| 0 <= x < svd.areas@.len() ==> !is_user_tone_tag(#[trigger] svd.areas@[x].tag@),
        0 <= i < svd.areas@.len(),
        svd.areas@[i].tag@ == seq![0x55u8, 0x53, 0x50, 0x61] || svd.areas@[i].tag@ == seq![0x53u8, 0x4d, 0x50, 0x61]
            || svd.areas@[i].tag@ == seq![0x4du8, 0x53, 0x50, 0x61] || svd.areas@[i].tag@ == seq![0x4du8, 0x4c, 0x53, 0x61]
            || svd.areas@[i].tag@ == seq![0x55u8, 0x53, 0x44, 0x61],
    ensures
        role_of(s) == Role::SampleBank,
{
    let t = tone_areas();
    assert forall|j: int| 0 <= j < t.len() implies !file_has(s, #[trigger] t[j]) by {
        lemma_listed(s, svd, t[j]);
        if file_has(s, t[j]) {
            let x = choose|x: int| 0 <= x < svd.areas@.len() && (#[trigger] svd.areas@[x]).tag@ == t[j];
            assert(is_user_tone_tag(svd.areas@[x].tag@));
        }
    }
    assert(!has_any(s, t));
    let tag = svd.areas@[i].tag@;
    lemma_listed(s, svd, tag);
    assert(file_has(s, tag));
    let c = companion_sample_areas();
    let b = sample_bank_areas();
    if tag == c[0] {
        assert(has_any(s, c));
    } else if tag == c[1] {
        assert(has_any(s, c));
    } else if tag == b[0] {
        assert(has_any(s, b));
    } else if tag == b[1] {
        assert(has_any(s, b));
    } else {
        assert(tag == b[2]);
        assert(has_any(s, b));
    }
}

/// An `SVD5` that lists the performance area (`PRFa`) and any area of the user sample bank
/// (`SMPa`, `MLSa` or `USDa`) is a whole-instrument backup: no export writes the sample bank.
pub proof fn law_sample_bank_areas_make_a_backup(s: Seq<u8>, svd: Svd, p: int, i: int)
    requires
        parses_as(svd, s),
        svd.kind == Kind::Svd,
        0 <= p < svd.areas@.len(),
        svd.areas@[p].tag@ == seq![0x50u8, 0x52, 0x46, 0x61],
        0 <= i < svd.areas@.len(),
        svd.areas@[i].tag@ == seq![0x53u8, 0x4d, 0x50, 0x61] || svd.areas@[i].tag@ == seq![0x4du8, 0x4c, 0x53, 0x61]
            || svd.areas@[i].tag@ == seq![0x55u8, 0x53, 0x44, 0x61],
    ensures
        role_of(s) == Role::Backup,
{
    lemma_listed(s, svd, svd.areas@[p].tag@);
    assert(svd.areas@[p].tag@ == prfa());
    assert(file_has(s, prfa()));
    let tag = svd.areas@[i].tag@;
    lemma_listed(s, svd, tag);
    assert(file_has(s, tag));
    let b = sample_bank_areas();
    if tag == b[0] {
        assert(has_any(s, b));
    } else if tag == b[1] {
        assert(has_any(s, b));
    } else {
        assert(tag == b[2]);
        assert(has_any(s, b));
    }
}

} // verus!
