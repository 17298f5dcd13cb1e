//! What a file needs from wherever it is loaded, as data rather than prose.
//!
//! A bank names things it does not carry. A zone can point at a factory sound, at an installed
//! expansion, or at a user sample by slot number — and none of those travel in the file. The
//! failure that causes is the quiet kind: the bytes load without error and play a different
//! instrument than their author heard. [`Requirements`] is the dependency closure of one piece of
//! material, so a preflight check, a browse page and an install guide all read the same list.
//!
//! [`compare`] weighs a requirement list against an [`Inventory`] read from the destination, and is
//! deliberately uneven about it because the format is: a backup names every occupied sample slot,
//! so those can be checked one by one, while nothing in any file lists which expansions an
//! instrument has installed, so those come back with an `Unknown` verdict.

pub mod scan;

pub use self::scan::{inventory, requirements, scene_requirements, tone_requirements, Reader};

use vstd::prelude::*;

use crate::codec::starts_with;
use crate::model::{ToneAddress, ToneType};
use crate::role::Role;
use crate::text::{
    debug_str, decimal, padded_decimal, push_debug_str, push_decimal, push_padded_decimal,
    push_str,
};

verus! {

/// One user tone record the material needs, and whether the file carries it.
#[derive(Debug, Clone, PartialEq, Eq)]
pub struct ToneRequirement {
    /// Four-byte area tag the record lives in, as text.
    pub area: String,
    /// Zero-based record index within that area.
    pub index: usize,
    pub engine: ToneType,
    /// The record's name, when the file holds it.
    pub name: Option<String>,
    /// The address the zone stores, kept so a missing tone can still be named precisely.
    pub address: ToneAddress,
    /// Whether the file bundles the record — a placeholder `INITIAL` slot counts as missing.
    pub present: bool,
}

/// A factory, expansion, or modelled bank a zone points at: content that lives in the instrument.
#[derive(Debug, Clone, PartialEq, Eq)]
pub struct BankRequirement {
    pub engine: ToneType,
    /// Bank label when its byte mapping is confirmed — `EXZ007`, `EXSN01`, `JP8`, `PR-A`.
    pub bank: Option<String>,
    /// The sound's name, when the bundled sound list can name it.
    pub tone: Option<String>,
    pub address: ToneAddress,
}

/// One user sample or multisample slot the material plays.
#[derive(Debug, Clone, PartialEq, Eq)]
pub struct SlotRequirement {
    /// 1-based panel slot number, as a tone stores it.
    pub slot: u16,
    /// The slot's name, when this file carries the directory naming it.
    pub name: Option<String>,
    /// Whether this file carries the content for the slot.
    pub carried: bool,
    /// The file holds this slot's audio and it is nothing but zeros.
    pub silent: bool,
    /// Names of the bundled tones that play it.
    pub played_by: Vec<String>,
}

/// Everything a file, a scene, or a tone asks of wherever it is loaded.
#[derive(Debug, Clone, PartialEq, Eq)]
pub struct Requirements {
    /// Sound engines the material plays, in the order first seen.
    pub engines: Vec<ToneType>,
    /// User tone records the scenes call for.
    pub user_tones: Vec<ToneRequirement>,
    /// Factory, expansion, and modelled banks a zone points at.
    pub banks: Vec<BankRequirement>,
    /// User sample slots the material plays, as 1-based panel numbers.
    pub samples: Vec<SlotRequirement>,
    /// User multisample slots the material plays, as 1-based panel numbers.
    pub multisamples: Vec<SlotRequirement>,
    /// Wave-group ids of installed wave expansions a bundled tone's partials play from.
    pub wave_expansions: Vec<u16>,
    /// Tone addresses belonging to no engine this version can name.
    pub unclassified: Vec<ToneAddress>,
    /// Whether the file carries user audio of its own.
    pub carries_audio: bool,
}

impl Default for Requirements {
    fn default() -> (r: Self)
        ensures
            r.engines@.len() == 0,
            r.user_tones@.len() == 0,
            r.banks@.len() == 0,
            r.samples@.len() == 0,
            r.multisamples@.len() == 0,
            r.wave_expansions@.len() == 0,
            r.unclassified@.len() == 0,
            !r.carries_audio,
    {
        Requirements {
            engines: Vec::new(),
            user_tones: Vec::new(),
            banks: Vec::new(),
            samples: Vec::new(),
            multisamples: Vec::new(),
            wave_expansions: Vec::new(),
            unclassified: Vec::new(),
            carries_audio: false,
        }
    }
}

/// The tones among `v` the file does not carry, in order.
pub open spec fn missing_of(v: Seq<ToneRequirement>) -> Seq<ToneRequirement>
    decreases v.len(),
{
    if v.len() == 0 {
        Seq::empty()
    } else if !v.last().present {
        missing_of(v.drop_last()).push(v.last())
    } else {
        missing_of(v.drop_last())
    }
}

/// The slots among `v` whose content the file does not carry, in order.
pub open spec fn uncarried_of(v: Seq<SlotRequirement>) -> Seq<SlotRequirement>
    decreases v.len(),
{
    if v.len() == 0 {
        Seq::empty()
    } else if !v.last().carried {
        uncarried_of(v.drop_last()).push(v.last())
    } else {
        uncarried_of(v.drop_last())
    }
}

/// The slots among `v` the file carries as silence, in order.
pub open spec fn silent_of(v: Seq<SlotRequirement>) -> Seq<SlotRequirement>
    decreases v.len(),
{
    if v.len() == 0 {
        Seq::empty()
    } else if v.last().silent {
        silent_of(v.drop_last()).push(v.last())
    } else {
        silent_of(v.drop_last())
    }
}

/// The banks among `v` that are not factory content, in order.
pub open spec fn expansions_of(v: Seq<BankRequirement>) -> Seq<BankRequirement>
    decreases v.len(),
{
    if v.len() == 0 {
        Seq::empty()
    } else if !is_factory_spec(v.last()) {
        expansions_of(v.drop_last()).push(v.last())
    } else {
        expansions_of(v.drop_last())
    }
}

/// A filter keeps no more slots than it was given.
pub proof fn lemma_uncarried_len(v: Seq<SlotRequirement>)
    ensures
        uncarried_of(v).len() <= v.len(),
    decreases v.len(),
{
    if v.len() > 0 {
        lemma_uncarried_len(v.drop_last());
    }
}

/// A filter keeps no more banks than it was given.
pub proof fn lemma_expansions_len(v: Seq<BankRequirement>)
    ensures
        expansions_of(v).len() <= v.len(),
    decreases v.len(),
{
    if v.len() > 0 {
        lemma_expansions_len(v.drop_last());
    }
}

/// Whether a bank label names content every FANTOM ships with: the `PR-` preset banks, `PRST`
/// and `CMN`.
pub open spec fn factory_label(s: Seq<char>) -> bool {
    ||| starts_with(s, seq!['P', 'R', '-'])
    ||| s == seq!['P', 'R', 'S', 'T']
    ||| s == seq!['C', 'M', 'N']
}

/// Whether a bank requirement is factory content: its label is confirmed and names a factory
/// bank. An unconfirmed bank is never assumed to be factory.
pub open spec fn is_factory_spec(b: BankRequirement) -> bool {
    b.bank matches Some(label) && factory_label(label@)
}

fn chars_equal(s: &str, w: &[char]) -> (r: bool)
    ensures
        r == (s@ == w@),
{
    let n = s.unicode_len();
    if n != w.len() {
        return false;
    }
    let mut i: usize = 0;
    while i < n
        invariant
            n == s@.len(),
            n == w@.len(),
            i <= n,
            forall|j: int| 0 <= j < i ==> s@[j] == w@[j],
        decreases n - i,
    {
        if s.get_char(i) != w[i] {
            return false;
        }
        i = i + 1;
    }
    assert(s@ =~= w@);
    true
}

/// Whether a bank label names content every FANTOM ships with.
///
/// The preset banks — `PR-A`..`PR-D`, `PRST`, `CMN` — are in every instrument, so listing them
/// as install requirements is noise that hides the ones that matter.
pub fn is_factory_bank(bank: &str) -> (r: bool)
    ensures
        r == factory_label(bank@),
{
    let pr: [char; 3] = ['P', 'R', '-'];
    let prst: [char; 4] = ['P', 'R', 'S', 'T'];
    let cmn: [char; 3] = ['C', 'M', 'N'];
    assert(pr@ =~= seq!['P', 'R', '-']);
    assert(prst@ =~= seq!['P', 'R', 'S', 'T']);
    assert(cmn@ =~= seq!['C', 'M', 'N']);
    let n = bank.unicode_len();
    let mut prefix = n >= 3;
    if prefix {
        let sub = bank.substring_char(0, 3);
        prefix = chars_equal(sub, &pr);
    }
    prefix || chars_equal(bank, &prst) || chars_equal(bank, &cmn)
}

impl BankRequirement {
    /// Whether this is factory content every FANTOM ships with, rather than something that has to
    /// be installed before the material plays correctly.
    pub fn is_factory(&self) -> (r: bool)
        ensures
            r == is_factory_spec(*self),
    {
        match &self.bank {
            Some(label) => is_factory_bank(label.as_str()),
            None => false,
        }
    }

    /// How the requirement reads in a list. An unconfirmed bank shows its raw `LSB` rather than an
    /// invented name.
    pub fn label(&self) -> (s: String)
        ensures
            s@ == bank_label_text(*self),
    {
        let mut s = String::new();
        push_str(&mut s, self.engine.label());
        push_str(&mut s, " ");
        match &self.bank {
            Some(bank) => push_str(&mut s, bank.as_str()),
            None => {
                push_str(&mut s, "LSB ");
                push_decimal(&mut s, self.address.lsb as u64);
            },
        }
        push_str(&mut s, " PC ");
        push_padded_decimal(&mut s, self.address.pc as u64, 3);
        match &self.tone {
            Some(name) => {
                push_str(&mut s, " \"");
                push_str(&mut s, name.as_str());
                push_str(&mut s, "\"");
            },
            None => {},
        }
        s
    }
}

/// How a bank requirement reads: engine, bank (or its raw LSB), three-digit PC, and the sound's
/// name in quotes when known.
pub open spec fn bank_label_text(b: BankRequirement) -> Seq<char> {
    b.engine.spec_label()@ + " "@ + match b.bank {
        Some(bank) => bank@,
        None => "LSB "@ + decimal(b.address.lsb as nat),
    } + " PC "@ + padded_decimal(b.address.pc as nat, 3) + match b.tone {
        Some(name) => " \""@ + name@ + "\""@,
        None => Seq::empty(),
    }
}

impl Requirements {
    /// Whether nothing at all is required.
    pub fn is_empty(&self) -> (r: bool)
        ensures
            r == (self.user_tones@.len() == 0 && self.banks@.len() == 0 && self.samples@.len() == 0
                && self.multisamples@.len() == 0 && self.wave_expansions@.len() == 0
                && self.unclassified@.len() == 0),
    {
        self.user_tones.len() == 0 && self.banks.len() == 0 && self.samples.len() == 0
            && self.multisamples.len() == 0 && self.wave_expansions.len() == 0
            && self.unclassified.len() == 0
    }

    /// User tones the file does not carry: a zone points at a bank slot holding nothing, or
    /// holding the factory's `INITIAL` placeholder.
    pub fn missing_tones(&self) -> (v: Vec<&ToneRequirement>)
        ensures
            v@.len() == missing_of(self.user_tones@).len(),
            forall|k: int| 0 <= k < v@.len() ==> *v@[k] == missing_of(self.user_tones@)[k],
    {
        let mut out: Vec<&ToneRequirement> = Vec::new();
        let mut i: usize = 0;
        while i < self.user_tones.len()
            invariant
                i <= self.user_tones@.len(),
                out@.len() == missing_of(self.user_tones@.subrange(0, i as int)).len(),
                forall|k: int|
                    0 <= k < out@.len() ==> *out@[k] == missing_of(
                        self.user_tones@.subrange(0, i as int),
                    )[k],
            decreases self.user_tones@.len() - i,
        {
            assert(self.user_tones@.subrange(0, i + 1).drop_last() =~= self.user_tones@.subrange(
                0,
                i as int,
            ));
            if !self.user_tones[i].present {
                out.push(&self.user_tones[i]);
            }
            i = i + 1;
        }
        assert(self.user_tones@.subrange(0, i as int) =~= self.user_tones@);
        out
    }

    /// Sample slots whose audio this file does not carry, and which the destination must
    /// therefore already hold.
    pub fn missing_samples(&self) -> (v: Vec<&SlotRequirement>)
        ensures
            v@.len() == uncarried_of(self.samples@).len(),
            forall|k: int| 0 <= k < v@.len() ==> *v@[k] == uncarried_of(self.samples@)[k],
    {
        let mut out: Vec<&SlotRequirement> = Vec::new();
        let mut i: usize = 0;
        while i < self.samples.len()
            invariant
                i <= self.samples@.len(),
                out@.len() == uncarried_of(self.samples@.subrange(0, i as int)).len(),
                forall|k: int|
                    0 <= k < out@.len() ==> *out@[k] == uncarried_of(
                        self.samples@.subrange(0, i as int),
                    )[k],
            decreases self.samples@.len() - i,
        {
            assert(self.samples@.subrange(0, i + 1).drop_last() =~= self.samples@.subrange(
                0,
                i as int,
            ));
            if !self.samples[i].carried {
                out.push(&self.samples[i]);
            }
            i = i + 1;
        }
        assert(self.samples@.subrange(0, i as int) =~= self.samples@);
        out
    }

    /// Slots this file carries whose audio is silence: the one way a package can be complete by
    /// every structural measure and still be empty.
    pub fn silent_samples(&self) -> (v: Vec<&SlotRequirement>)
        ensures
            v@.len() == silent_of(self.samples@).len(),
            forall|k: int| 0 <= k < v@.len() ==> *v@[k] == silent_of(self.samples@)[k],
    {
        let mut out: Vec<&SlotRequirement> = Vec::new();
        let mut i: usize = 0;
        while i < self.samples.len()
            invariant
                i <= self.samples@.len(),
                out@.len() == silent_of(self.samples@.subrange(0, i as int)).len(),
                forall|k: int|
                    0 <= k < out@.len() ==> *out@[k] == silent_of(
                        self.samples@.subrange(0, i as int),
                    )[k],
            decreases self.samples@.len() - i,
        {
            assert(self.samples@.subrange(0, i + 1).drop_last() =~= self.samples@.subrange(
                0,
                i as int,
            ));
            if self.samples[i].silent {
                out.push(&self.samples[i]);
            }
            i = i + 1;
        }
        assert(self.samples@.subrange(0, i as int) =~= self.samples@);
        out
    }

    /// Banks that have to be installed before the material plays as its author heard it — the
    /// expansions, minus the factory presets every instrument already has.
    pub fn expansions(&self) -> (v: Vec<&BankRequirement>)
        ensures
            v@.len() == expansions_of(self.banks@).len(),
            forall|k: int| 0 <= k < v@.len() ==> *v@[k] == expansions_of(self.banks@)[k],
    {
        let mut out: Vec<&BankRequirement> = Vec::new();
        let mut i: usize = 0;
        while i < self.banks.len()
            invariant
                i <= self.banks@.len(),
                out@.len() == expansions_of(self.banks@.subrange(0, i as int)).len(),
                forall|k: int|
                    0 <= k < out@.len() ==> *out@[k] == expansions_of(
                        self.banks@.subrange(0, i as int),
                    )[k],
            decreases self.banks@.len() - i,
        {
            assert(self.banks@.subrange(0, i + 1).drop_last() =~= self.banks@.subrange(
                0,
                i as int,
            ));
            if !self.banks[i].is_factory() {
                out.push(&self.banks[i]);
            }
            i = i + 1;
        }
        assert(self.banks@.subrange(0, i as int) =~= self.banks@);
        out
    }

    /// Whether anything here can only be satisfied by content already installed on the
    /// instrument — the requirements an export has to make the user acknowledge.
    pub fn needs_installed_content(&self) -> (r: bool)
        ensures
            r == (expansions_of(self.banks@).len() > 0 || self.wave_expansions@.len() > 0
                || self.unclassified@.len() > 0),
    {
        self.expansions().len() > 0 || self.wave_expansions.len() > 0 || self.unclassified.len()
            > 0
    }
}

/// What a destination file shows it holds — the other half of a compatibility check.
#[derive(Debug, Clone, PartialEq, Eq)]
pub struct Inventory {
    /// What the file is for.
    pub role: Role,
    /// Occupied user sample slots, 1-based.
    pub samples: Vec<HeldSlot>,
    /// Multisample slots the file defines, 1-based.
    pub multisamples: Vec<HeldSlot>,
}

impl Default for Inventory {
    fn default() -> (r: Self)
        ensures
            r.role == Role::Unknown,
            r.samples@.len() == 0,
            r.multisamples@.len() == 0,
    {
        Inventory { role: Role::Unknown, samples: Vec::new(), multisamples: Vec::new() }
    }
}

/// One slot a destination holds, and what is in it.
#[derive(Debug, Clone, PartialEq, Eq)]
pub struct HeldSlot {
    pub slot: u16,
    pub name: String,
}

impl Inventory {
    /// Whether this file can speak for an instrument's sample bank at all: only a backup's
    /// silence about a slot means the slot is empty.
    pub fn knows_samples(&self) -> (r: bool)
        ensures
            r == (self.role == Role::Backup || self.samples@.len() > 0),
    {
        matches!(self.role, Role::Backup) || self.samples.len() > 0
    }
}

/// The first of `held` at slot `slot`.
pub open spec fn held_at(held: Seq<HeldSlot>, slot: u16, from: int) -> Option<HeldSlot>
    decreases held.len() - from,
{
    if from < 0 || from >= held.len() {
        None
    } else if held[from].slot == slot {
        Some(held[from])
    } else {
        held_at(held, slot, from + 1)
    }
}

fn find_held(held: &Vec<HeldSlot>, slot: u16) -> (r: Option<&HeldSlot>)
    ensures
        match held_at(held@, slot, 0) {
            Some(h) => r matches Some(x) && *x == h,
            None => r is None,
        },
{
    let mut i: usize = 0;
    while i < held.len()
        invariant
            i <= held@.len(),
            held_at(held@, slot, 0) == held_at(held@, slot, i as int),
        decreases held@.len() - i,
    {
        if held[i].slot == slot {
            return Some(&held[i]);
        }
        i = i + 1;
    }
    None
}

fn clone_names(v: &Vec<String>) -> (r: Vec<String>)
    ensures
        r@ == v@,
{
    let mut out: Vec<String> = Vec::new();
    let mut i: usize = 0;
    while i < v.len()
        invariant
            i <= v@.len(),
            out@ == v@.subrange(0, i as int),
        decreases v@.len() - i,
    {
        out.push(v[i].clone());
        i = i + 1;
        assert(out@ =~= v@.subrange(0, i as int));
    }
    assert(v@.subrange(0, v@.len() as int) =~= v@);
    out
}

/// `slot` with its name looked up in `held` when it has none.
pub open spec fn named_slot(slot: SlotRequirement, named: SlotRequirement, held: Seq<HeldSlot>) -> bool {
    &&& named.slot == slot.slot
    &&& named.carried == slot.carried
    &&& named.silent == slot.silent
    &&& named.played_by@ == slot.played_by@
    &&& match slot.name {
        Some(n) => named.name == Some(n),
        None => match held_at(held, slot.slot, 0) {
            Some(h) => named.name == Some(h.name),
            None => named.name is None,
        },
    }
}

fn name_slots(slots: &Vec<SlotRequirement>, held: &Vec<HeldSlot>) -> (r: Vec<SlotRequirement>)
    ensures
        r@.len() == slots@.len(),
        forall|k: int| 0 <= k < r@.len() ==> named_slot(slots@[k], #[trigger] r@[k], held@),
{
    let mut out: Vec<SlotRequirement> = Vec::new();
    let mut i: usize = 0;
    while i < slots.len()
        invariant
            i <= slots@.len(),
            out@.len() == i,
            forall|k: int| 0 <= k < i ==> named_slot(slots@[k], #[trigger] out@[k], held@),
        decreases slots@.len() - i,
    {
        let s = &slots[i];
        let name = match &s.name {
            Some(n) => Some(n.clone()),
            None => match find_held(held, s.slot) {
                Some(h) => Some(h.name.clone()),
                None => None,
            },
        };
        out.push(
            SlotRequirement {
                slot: s.slot,
                name,
                carried: s.carried,
                silent: s.silent,
                played_by: clone_names(&s.played_by),
            },
        );
        i = i + 1;
    }
    out
}

impl Requirements {
    /// Name the slots this material needs from a file that holds the directory naming them.
    ///
    /// A scene bank carries no slot table, so one rebuilt out of a backup knows the numbers it
    /// needs but not what was in them — while the backup it came from does. Slots the other file
    /// cannot name are left unnamed rather than invented.
    pub fn named_from(self, held: &Inventory) -> (r: Self)
        ensures
            r.engines@ == self.engines@,
            r.user_tones@ == self.user_tones@,
            r.banks@ == self.banks@,
            r.wave_expansions@ == self.wave_expansions@,
            r.unclassified@ == self.unclassified@,
            r.carries_audio == self.carries_audio,
            r.samples@.len() == self.samples@.len(),
            forall|k: int|
                0 <= k < r.samples@.len() ==> named_slot(
                    self.samples@[k],
                    #[trigger] r.samples@[k],
                    held.samples@,
                ),
            r.multisamples@.len() == self.multisamples@.len(),
            forall|k: int|
                0 <= k < r.multisamples@.len() ==> named_slot(
                    self.multisamples@[k],
                    #[trigger] r.multisamples@[k],
                    held.multisamples@,
                ),
    {
        let samples = name_slots(&self.samples, &held.samples);
        let multisamples = name_slots(&self.multisamples, &held.multisamples);
        Requirements {
            engines: self.engines,
            user_tones: self.user_tones,
            banks: self.banks,
            samples,
            multisamples,
            wave_expansions: self.wave_expansions,
            unclassified: self.unclassified,
            carries_audio: self.carries_audio,
        }
    }
}

/// How one requirement stands against a destination.
#[derive(Debug, Clone, Copy, PartialEq, Eq)]
pub enum Verdict {
    /// The destination provides it.
    Met,
    /// The destination does not have it.
    Missing,
    /// Something is at that slot, but not this.
    Differs,
    /// The format cannot answer: compare by hand.
    Unknown,
}

impl Verdict {
    pub open spec fn spec_as_str(self) -> &'static str {
        match self {
            Verdict::Met => "met",
            Verdict::Missing => "missing",
            Verdict::Differs => "differs",
            Verdict::Unknown => "unknown",
        }
    }

    pub fn as_str(self) -> (s: &'static str)
        ensures
            s == self.spec_as_str(),
    {
        match self {
            Verdict::Met => "met",
            Verdict::Missing => "missing",
            Verdict::Differs => "differs",
            Verdict::Unknown => "unknown",
        }
    }

    /// Whether this verdict should stop an import or fail a gate: only a definite one does.
    pub fn is_problem(self) -> (r: bool)
        ensures
            r == (self is Missing || self is Differs),
    {
        matches!(self, Verdict::Missing | Verdict::Differs)
    }
}

/// One requirement weighed against a destination.
#[derive(Debug, Clone, PartialEq, Eq)]
pub struct Finding {
    /// The requirement, as it reads in a report.
    pub requirement: String,
    pub verdict: Verdict,
    /// What the destination has to say about it, if anything.
    pub detail: String,
}

/// A finding's text, verdict and detail, as values.
pub type Line = (Seq<char>, Verdict, Seq<char>);

/// Why an installed-content requirement can never be confirmed from a file.
pub open spec fn installed_content() -> Seq<char> {
    "not listed by any file"@
}

pub open spec fn tone_line(t: ToneRequirement) -> Line {
    (
        "user tone "@ + t.area@ + "["@ + decimal(t.index as nat) + "] (MSB "@ + decimal(
            t.address.msb as nat,
        ) + " LSB "@ + decimal(t.address.lsb as nat) + " PC "@ + padded_decimal(
            t.address.pc as nat,
            3,
        ) + ")"@,
        Verdict::Missing,
        "the file points at this slot but bundles no sound there"@,
    )
}

/// How a slot reads in a report: kind, number, and its name quoted when known.
pub open spec fn slot_label(kind: Seq<char>, s: SlotRequirement) -> Seq<char> {
    match s.name {
        Some(n) => kind + " slot "@ + decimal(s.slot as nat) + " "@ + debug_str(n@),
        None => kind + " slot "@ + decimal(s.slot as nat),
    }
}

pub open spec fn sample_line(s: SlotRequirement, held: Inventory) -> Line {
    let there = held_at(held.samples@, s.slot, 0);
    let label = slot_label("sample"@, s);
    if !(held.role == Role::Backup || held.samples@.len() > 0) {
        (
            label,
            Verdict::Unknown,
            "that file carries no sample bank, so it cannot say what is in the slot"@,
        )
    } else {
        match there {
            None => (label, Verdict::Missing, "the slot is empty there"@),
            Some(h) => match s.name {
                Some(n) => if h.name@ == n@ {
                    (label, Verdict::Met, "holds "@ + debug_str(h.name@))
                } else {
                    (label, Verdict::Differs, "holds "@ + debug_str(h.name@))
                },
                None => (label, Verdict::Unknown, "holds "@ + debug_str(h.name@)),
            },
        }
    }
}

pub open spec fn multisample_line(m: SlotRequirement, held: Inventory) -> Line {
    let label = slot_label("multisample"@, m);
    match held_at(held.multisamples@, m.slot, 0) {
        Some(h) => (label, Verdict::Met, "holds "@ + debug_str(h.name@)),
        None => if held.role == Role::Backup {
            (label, Verdict::Missing, "that instrument defines no multisample there"@)
        } else {
            (label, Verdict::Unknown, "that file carries no multisamples, so it cannot say"@)
        },
    }
}

pub open spec fn bank_line(b: BankRequirement) -> Line {
    if is_factory_spec(b) {
        (bank_label_text(b), Verdict::Met, "factory content, in every FANTOM"@)
    } else {
        (bank_label_text(b), Verdict::Unknown, installed_content())
    }
}

pub open spec fn wave_line(id: u16) -> Line {
    ("wave expansion, group id "@ + decimal(id as nat), Verdict::Unknown, installed_content())
}

pub open spec fn unclassified_line(a: ToneAddress) -> Line {
    (
        "unclassified tone address MSB "@ + decimal(a.msb as nat) + " LSB "@ + decimal(
            a.lsb as nat,
        ) + " PC "@ + padded_decimal(a.pc as nat, 3),
        Verdict::Unknown,
        "no engine or bank this version can name"@,
    )
}

/// What weighing `needs` against `held` reports, in order: tones the file lacks, samples and
/// then multisamples it does not carry, every bank, every wave expansion and every unclassified
/// address.
pub open spec fn comparison_lines(needs: Requirements, held: Inventory) -> Seq<Line> {
    missing_of(needs.user_tones@).map_values(|t: ToneRequirement| tone_line(t)) + uncarried_of(
        needs.samples@,
    ).map_values(|s: SlotRequirement| sample_line(s, held)) + uncarried_of(
        needs.multisamples@,
    ).map_values(|m: SlotRequirement| multisample_line(m, held)) + needs.banks@.map_values(
        |b: BankRequirement| bank_line(b),
    ) + needs.wave_expansions@.map_values(|id: u16| wave_line(id)) + needs.unclassified@.map_values(
        |a: ToneAddress| unclassified_line(a),
    )
}

/// Whether finding `f` reads as `line`.
pub open spec fn reads_as(f: Finding, line: Line) -> bool {
    f.requirement@ == line.0 && f.verdict == line.1 && f.detail@ == line.2
}

/// Whether `v`, from `start` on, reads as `lines`, and nothing follows.
pub open spec fn reads_from(v: Seq<Finding>, start: int, lines: Seq<Line>) -> bool {
    &&& v.len() == start + lines.len()
    &&& forall|k: int| 0 <= k < lines.len() ==> reads_as(#[trigger] v[start + k], lines[k])
}

pub(crate) fn str_equal(a: &str, b: &str) -> (r: bool)
    ensures
        r == (a@ == b@),
{
    let n = a.unicode_len();
    if n != b.unicode_len() {
        return false;
    }
    let mut i: usize = 0;
    while i < n
        invariant
            n == a@.len(),
            n == b@.len(),
            i <= n,
            forall|j: int| 0 <= j < i ==> a@[j] == b@[j],
        decreases n - i,
    {
        if a.get_char(i) != b.get_char(i) {
            return false;
        }
        i = i + 1;
    }
    assert(a@ =~= b@);
    true
}

fn push_slot_label(s: &mut String, kind: &str, slot: &SlotRequirement)
    ensures
        final(s)@ == old(s)@ + slot_label(kind@, *slot),
{
    push_str(s, kind);
    push_str(s, " slot ");
    push_decimal(s, slot.slot as u64);
    match &slot.name {
        Some(n) => {
            push_str(s, " ");
            push_debug_str(s, n.as_str());
        },
        None => {},
    }
}

fn holds_text(name: &String) -> (s: String)
    ensures
        s@ == "holds "@ + debug_str(name@),
{
    let mut s = String::new();
    push_str(&mut s, "holds ");
    push_debug_str(&mut s, name.as_str());
    s
}

fn text(t: &str) -> (s: String)
    ensures
        s@ == t@,
{
    let mut s = String::new();
    push_str(&mut s, t);
    s
}

/// Weigh a requirement list against what a destination file holds.
///
/// Only what the destination has to provide is reported: a tone the file bundles and audio it
/// carries are already satisfied and would be noise. An empty result therefore means the
/// destination can play this material as far as its file can tell — which is not certainty, and
/// is why requirements no file can settle are still listed, with an `Unknown` verdict.
pub fn compare(needs: &Requirements, held: &Inventory) -> (v: Vec<Finding>)
    ensures
        reads_from(v@, 0, comparison_lines(*needs, *held)),
{
    let mut out: Vec<Finding> = Vec::new();
    let ghost e1 = missing_of(needs.user_tones@).map_values(|t: ToneRequirement| tone_line(t));
    let tones = needs.missing_tones();
    let mut i: usize = 0;
    while i < tones.len()
        invariant
            tones@.len() == missing_of(needs.user_tones@).len(),
            forall|k: int| 0 <= k < tones@.len() ==> *tones@[k] == missing_of(needs.user_tones@)[k],
            e1 == missing_of(needs.user_tones@).map_values(|t: ToneRequirement| tone_line(t)),
            i <= tones@.len(),
            reads_from(out@, 0, e1.subrange(0, i as int)),
        decreases tones@.len() - i,
    {
        let t = tones[i];
        let mut r = String::new();
        push_str(&mut r, "user tone ");
        push_str(&mut r, t.area.as_str());
        push_str(&mut r, "[");
        push_decimal(&mut r, t.index as u64);
        push_str(&mut r, "] (MSB ");
        push_decimal(&mut r, t.address.msb as u64);
        push_str(&mut r, " LSB ");
        push_decimal(&mut r, t.address.lsb as u64);
        push_str(&mut r, " PC ");
        push_padded_decimal(&mut r, t.address.pc as u64, 3);
        push_str(&mut r, ")");
        out.push(
            Finding {
                requirement: r,
                verdict: Verdict::Missing,
                detail: text("the file points at this slot but bundles no sound there"),
            },
        );
        proof {
            assert forall|k: int| 0 <= k < i + 1 implies reads_as(
                #[trigger] out@[0 + k],
                e1.subrange(0, i + 1)[k],
            ) by {
                if k < i {
                    assert(e1.subrange(0, i as int)[k] == e1.subrange(0, i + 1)[k]);
                }
            }
        }
        i = i + 1;
    }
    assert(e1.subrange(0, i as int) =~= e1);
    let ghost e2 = uncarried_of(needs.samples@).map_values(|s: SlotRequirement| sample_line(s, *held));
    let ghost base = out@.len() as int;
    let samples = needs.missing_samples();
    let knows = held.knows_samples();
    let mut i: usize = 0;
    while i < samples.len()
        invariant
            samples@.len() == uncarried_of(needs.samples@).len(),
            forall|k: int| 0 <= k < samples@.len() ==> *samples@[k] == uncarried_of(needs.samples@)[k],
            e2 == uncarried_of(needs.samples@).map_values(|s: SlotRequirement| sample_line(s, *held)),
            knows == (held.role == Role::Backup || held.samples@.len() > 0),
            base == e1.len(),
            i <= samples@.len(),
            reads_from(out@, 0, e1 + e2.subrange(0, i as int)),
        decreases samples@.len() - i,
    {
        let sample = samples[i];
        let mut r = String::new();
        push_slot_label(&mut r, "sample", sample);
        let (verdict, detail) = if !knows {
            (
                Verdict::Unknown,
                text("that file carries no sample bank, so it cannot say what is in the slot"),
            )
        } else {
            match find_held(&held.samples, sample.slot) {
                None => (Verdict::Missing, text("the slot is empty there")),
                Some(h) => match &sample.name {
                    Some(n) => if str_equal(h.name.as_str(), n.as_str()) {
                        (Verdict::Met, holds_text(&h.name))
                    } else {
                        (Verdict::Differs, holds_text(&h.name))
                    },
                    None => (Verdict::Unknown, holds_text(&h.name)),
                },
            }
        };
        out.push(Finding { requirement: r, verdict, detail });
        proof {
            let e = e1 + e2.subrange(0, i + 1);
            assert forall|k: int| 0 <= k < e.len() implies reads_as(#[trigger] out@[0 + k], e[k]) by {
                if k < e1.len() + i {
                    assert(e[k] == (e1 + e2.subrange(0, i as int))[k]);
                }
            }
        }
        i = i + 1;
    }
    assert(e2.subrange(0, i as int) =~= e2);
    let ghost e3 = uncarried_of(needs.multisamples@).map_values(
        |m: SlotRequirement| multisample_line(m, *held),
    );
    let multis = missing_multisamples(needs);
    let mut i: usize = 0;
    while i < multis.len()
        invariant
            multis@.len() == uncarried_of(needs.multisamples@).len(),
            forall|k: int| 0 <= k < multis@.len() ==> *multis@[k] == uncarried_of(needs.multisamples@)[k],
            e3 == uncarried_of(needs.multisamples@).map_values(
                |m: SlotRequirement| multisample_line(m, *held),
            ),
            i <= multis@.len(),
            reads_from(out@, 0, e1 + e2 + e3.subrange(0, i as int)),
        decreases multis@.len() - i,
    {
        let m = multis[i];
        let mut r = String::new();
        push_slot_label(&mut r, "multisample", m);
        let (verdict, detail) = match find_held(&held.multisamples, m.slot) {
            Some(h) => (Verdict::Met, holds_text(&h.name)),
            None => if matches!(held.role, Role::Backup) {
                (Verdict::Missing, text("that instrument defines no multisample there"))
            } else {
                (Verdict::Unknown, text("that file carries no multisamples, so it cannot say"))
            },
        };
        out.push(Finding { requirement: r, verdict, detail });
        proof {
            let e = e1 + e2 + e3.subrange(0, i + 1);
            assert forall|k: int| 0 <= k < e.len() implies reads_as(#[trigger] out@[0 + k], e[k]) by {
                if k < e1.len() + e2.len() + i {
                    assert(e[k] == (e1 + e2 + e3.subrange(0, i as int))[k]);
                }
            }
        }
        i = i + 1;
    }
    assert(e3.subrange(0, i as int) =~= e3);
    let ghost e4 = needs.banks@.map_values(|b: BankRequirement| bank_line(b));
    let mut i: usize = 0;
    while i < needs.banks.len()
        invariant
            e4 == needs.banks@.map_values(|b: BankRequirement| bank_line(b)),
            i <= needs.banks@.len(),
            reads_from(out@, 0, e1 + e2 + e3 + e4.subrange(0, i as int)),
        decreases needs.banks@.len() - i,
    {
        let b = &needs.banks[i];
        let r = b.label();
        let (verdict, detail) = if b.is_factory() {
            (Verdict::Met, text("factory content, in every FANTOM"))
        } else {
            (Verdict::Unknown, text("not listed by any file"))
        };
        out.push(Finding { requirement: r, verdict, detail });
        proof {
            let e = e1 + e2 + e3 + e4.subrange(0, i + 1);
            assert forall|k: int| 0 <= k < e.len() implies reads_as(#[trigger] out@[0 + k], e[k]) by {
                if k < e1.len() + e2.len() + e3.len() + i {
                    assert(e[k] == (e1 + e2 + e3 + e4.subrange(0, i as int))[k]);
                }
            }
        }
        i = i + 1;
    }
    assert(e4.subrange(0, i as int) =~= e4);
    let ghost e5 = needs.wave_expansions@.map_values(|id: u16| wave_line(id));
    let mut i: usize = 0;
    while i < needs.wave_expansions.len()
        invariant
            e5 == needs.wave_expansions@.map_values(|id: u16| wave_line(id)),
            i <= needs.wave_expansions@.len(),
            reads_from(out@, 0, e1 + e2 + e3 + e4 + e5.subrange(0, i as int)),
        decreases needs.wave_expansions@.len() - i,
    {
        let mut r = String::new();
        push_str(&mut r, "wave expansion, group id ");
        push_decimal(&mut r, needs.wave_expansions[i] as u64);
        out.push(Finding { requirement: r, verdict: Verdict::Unknown, detail: text("not listed by any file") });
        proof {
            let e = e1 + e2 + e3 + e4 + e5.subrange(0, i + 1);
            assert forall|k: int| 0 <= k < e.len() implies reads_as(#[trigger] out@[0 + k], e[k]) by {
                if k < e1.len() + e2.len() + e3.len() + e4.len() + i {
                    assert(e[k] == (e1 + e2 + e3 + e4 + e5.subrange(0, i as int))[k]);
                }
            }
        }
        i = i + 1;
    }
    assert(e5.subrange(0, i as int) =~= e5);
    let ghost e6 = needs.unclassified@.map_values(|a: ToneAddress| unclassified_line(a));
    let mut i: usize = 0;
    while i < needs.unclassified.len()
        invariant
            e6 == needs.unclassified@.map_values(|a: ToneAddress| unclassified_line(a)),
            i <= needs.unclassified@.len(),
            reads_from(out@, 0, e1 + e2 + e3 + e4 + e5 + e6.subrange(0, i as int)),
        decreases needs.unclassified@.len() - i,
    {
        let a = needs.unclassified[i];
        let mut r = String::new();
        push_str(&mut r, "unclassified tone address MSB ");
        push_decimal(&mut r, a.msb as u64);
        push_str(&mut r, " LSB ");
        push_decimal(&mut r, a.lsb as u64);
        push_str(&mut r, " PC ");
        push_padded_decimal(&mut r, a.pc as u64, 3);
        out.push(
            Finding {
                requirement: r,
                verdict: Verdict::Unknown,
                detail: text("no engine or bank this version can name"),
            },
        );
        proof {
            let e = e1 + e2 + e3 + e4 + e5 + e6.subrange(0, i + 1);
            assert forall|k: int| 0 <= k < e.len() implies reads_as(#[trigger] out@[0 + k], e[k]) by {
                if k < e1.len() + e2.len() + e3.len() + e4.len() + e5.len() + i {
                    assert(e[k] == (e1 + e2 + e3 + e4 + e5 + e6.subrange(0, i as int))[k]);
                }
            }
        }
        i = i + 1;
    }
    assert(e6.subrange(0, i as int) =~= e6);
    out
}

/// Multisample slots whose content the file does not carry.
fn missing_multisamples(needs: &Requirements) -> (v: Vec<&SlotRequirement>)
    ensures
        v@.len() == uncarried_of(needs.multisamples@).len(),
        forall|k: int| 0 <= k < v@.len() ==> *v@[k] == uncarried_of(needs.multisamples@)[k],
{
    let mut out: Vec<&SlotRequirement> = Vec::new();
    let mut i: usize = 0;
    while i < needs.multisamples.len()
        invariant
            i <= needs.multisamples@.len(),
            out@.len() == uncarried_of(needs.multisamples@.subrange(0, i as int)).len(),
            forall|k: int|
                0 <= k < out@.len() ==> *out@[k] == uncarried_of(
                    needs.multisamples@.subrange(0, i as int),
                )[k],
        decreases needs.multisamples@.len() - i,
    {
        assert(needs.multisamples@.subrange(0, i + 1).drop_last() =~= needs.multisamples@.subrange(
            0,
            i as int,
        ));
        if !needs.multisamples[i].carried {
            out.push(&needs.multisamples[i]);
        }
        i = i + 1;
    }
    assert(needs.multisamples@.subrange(0, i as int) =~= needs.multisamples@);
    out
}

} // verus!

verus! {

proof fn lemma_uncarried_has(v: Seq<SlotRequirement>, j: int)
    requires
        0 <= j < v.len(),
        !v[j].carried,
    ensures
        exists|p: int| 0 <= p < uncarried_of(v).len() && uncarried_of(v)[p] == v[j],
    decreases v.len(),
{
    if j < v.len() - 1 {
        assert(v.drop_last()[j] == v[j]);
        lemma_uncarried_has(v.drop_last(), j);
        let p = choose|p: int| 0 <= p < uncarried_of(v.drop_last()).len() && uncarried_of(v.drop_last())[p] == v[j];
        if !v.last().carried {
            assert(uncarried_of(v)[p] == uncarried_of(v.drop_last())[p]);
        } else {
            assert(uncarried_of(v) == uncarried_of(v.drop_last()));
        }
        assert(0 <= p < uncarried_of(v).len() && uncarried_of(v)[p] == v[j]);
    } else {
        let q = uncarried_of(v).len() - 1;
        assert(uncarried_of(v)[q] == v[j]);
    }
}

proof fn lemma_not_held(held: Seq<HeldSlot>, slot: u16, from: int)
    requires
        forall|h: int| 0 <= h < held.len() ==> held[h].slot != slot,
    ensures
        held_at(held, slot, from) is None,
    decreases held.len() - from,
{
    if 0 <= from < held.len() {
        lemma_not_held(held, slot, from + 1);
    }
}

/// Weighed against an instrument backup, a multisample the material needs and does not carry,
/// at a slot where the backup defines none, is reported missing — a problem, so the check fails.
/// A backup is the whole instrument: its silence about a slot means the slot is empty.
pub proof fn law_backup_without_the_multisample_misses_it(needs: Requirements, held: Inventory, v: Seq<Finding>, j: int)
    requires
        reads_from(v, 0, comparison_lines(needs, held)),
        held.role == Role::Backup,
        0 <= j < needs.multisamples@.len(),
        !needs.multisamples@[j].carried,
        forall|h: int| 0 <= h < held.multisamples@.len() ==> held.multisamples@[h].slot != needs.multisamples@[j].slot,
    ensures
        exists|k: int|
            0 <= k < v.len() && v[k].verdict == Verdict::Missing && v[k].requirement@ == slot_label(
                "multisample"@,
                needs.multisamples@[j],
            ),
{
    let m = needs.multisamples@[j];
    lemma_uncarried_has(needs.multisamples@, j);
    let u = uncarried_of(needs.multisamples@);
    let p = choose|p: int| 0 <= p < u.len() && u[p] == m;
    lemma_not_held(held.multisamples@, m.slot, 0);
    let e1 = missing_of(needs.user_tones@).map_values(|t: ToneRequirement| tone_line(t));
    let e2 = uncarried_of(needs.samples@).map_values(|s: SlotRequirement| sample_line(s, held));
    let e3 = u.map_values(|x: SlotRequirement| multisample_line(x, held));
    let lines = comparison_lines(needs, held);
    let k = e1.len() + e2.len() + p;
    assert(lines[k] == e3[p]);
    assert(e3[p] == multisample_line(m, held));
    assert(reads_as(v[0 + k], lines[k]));
}

proof fn lemma_held_some(held: Seq<HeldSlot>, slot: u16, from: int, h: int)
    requires
        0 <= from <= h < held.len(),
        held[h].slot == slot,
    ensures
        held_at(held, slot, from) is Some,
    decreases h - from,
{
    if held[from].slot != slot {
        lemma_held_some(held, slot, from + 1, h);
    }
}

proof fn lemma_held_first(held: Seq<HeldSlot>, slot: u16, from: int, h: int)
    requires
        0 <= from <= h < held.len(),
        held[h].slot == slot,
        forall|x: int| from <= x < h ==> held[x].slot != slot,
    ensures
        held_at(held, slot, from) == Some(held[h]),
    decreases h - from,
{
    if from < h {
        lemma_held_first(held, slot, from + 1, h);
    }
}

/// How a multisample the material needs and does not carry is weighed: met when the destination
/// defines a multisample at its slot; otherwise missing when the destination is an instrument
/// backup, whose silence means the slot is empty, and unknown for any other file.
pub proof fn law_multisample_verdict(needs: Requirements, held: Inventory, v: Seq<Finding>, j: int)
    requires
        reads_from(v, 0, comparison_lines(needs, held)),
        0 <= j < needs.multisamples@.len(),
        !needs.multisamples@[j].carried,
    ensures
        exists|k: int|
            0 <= k < v.len() && v[k].requirement@ == slot_label("multisample"@, needs.multisamples@[j])
                && v[k].verdict == if exists|h: int|
                0 <= h < held.multisamples@.len() && #[trigger] held.multisamples@[h].slot
                    == needs.multisamples@[j].slot {
                Verdict::Met
            } else if held.role == Role::Backup {
                Verdict::Missing
            } else {
                Verdict::Unknown
            },
{
    let m = needs.multisamples@[j];
    lemma_uncarried_has(needs.multisamples@, j);
    let u = uncarried_of(needs.multisamples@);
    let p = choose|p: int| 0 <= p < u.len() && u[p] == m;
    if exists|h: int| 0 <= h < held.multisamples@.len() && #[trigger] held.multisamples@[h].slot == m.slot {
        let h0 = choose|h: int| 0 <= h < held.multisamples@.len() && #[trigger] held.multisamples@[h].slot == m.slot;
        lemma_held_some(held.multisamples@, m.slot, 0, h0);
    } else {
        lemma_not_held(held.multisamples@, m.slot, 0);
    }
    let e1 = missing_of(needs.user_tones@).map_values(|t: ToneRequirement| tone_line(t));
    let e2 = uncarried_of(needs.samples@).map_values(|s: SlotRequirement| sample_line(s, held));
    let e3 = u.map_values(|x: SlotRequirement| multisample_line(x, held));
    let lines = comparison_lines(needs, held);
    let k = e1.len() + e2.len() + p;
    assert(lines[k] == e3[p]);
    assert(e3[p] == multisample_line(m, held));
    assert(reads_as(v[0 + k], lines[k]));
}

/// How a sample the material needs and does not carry is weighed. A destination that can speak
/// for a sample bank — an instrument backup, or any file that holds samples — answers: missing
/// when it holds nothing at the slot; when the first sample it holds there has the name the
/// material expects, met; another name, differs; no name to compare, unknown. Any other file
/// cannot say what is in the slot: unknown.
pub proof fn law_sample_verdict(needs: Requirements, held: Inventory, v: Seq<Finding>, j: int)
    requires
        reads_from(v, 0, comparison_lines(needs, held)),
        0 <= j < needs.samples@.len(),
        !needs.samples@[j].carried,
    ensures
        exists|k: int|
            0 <= k < v.len() && v[k].requirement@ == slot_label("sample"@, needs.samples@[j]) && {
                let need = needs.samples@[j];
                let hs = held.samples@;
                let knows = held.role == Role::Backup || hs.len() > 0;
                &&& !knows ==> v[k].verdict == Verdict::Unknown
                &&& knows && (forall|h: int| 0 <= h < hs.len() ==> #[trigger] hs[h].slot != need.slot) ==> v[k].verdict
                    == Verdict::Missing
                &&& forall|h: int|
                    knows && 0 <= h < hs.len() && #[trigger] hs[h].slot == need.slot && (forall|x: int|
                        0 <= x < h ==> hs[x].slot != need.slot) ==> v[k].verdict == match need.name {
                        Some(n) => if hs[h].name@ == n@ {
                            Verdict::Met
                        } else {
                            Verdict::Differs
                        },
                        None => Verdict::Unknown,
                    }
            },
{
    let need = needs.samples@[j];
    lemma_uncarried_has(needs.samples@, j);
    let u = uncarried_of(needs.samples@);
    let p = choose|p: int| 0 <= p < u.len() && u[p] == need;
    let hs = held.samples@;
    assert forall|h: int|
        0 <= h < hs.len() && #[trigger] hs[h].slot == need.slot && (forall|x: int| 0 <= x < h ==> hs[x].slot != need.slot)
        implies held_at(hs, need.slot, 0) == Some(hs[h]) by {
        lemma_held_first(hs, need.slot, 0, h);
    }
    if forall|h: int| 0 <= h < hs.len() ==> #[trigger] hs[h].slot != need.slot {
        lemma_not_held(hs, need.slot, 0);
    }
    let e1 = missing_of(needs.user_tones@).map_values(|t: ToneRequirement| tone_line(t));
    let e2 = u.map_values(|x: SlotRequirement| sample_line(x, held));
    let lines = comparison_lines(needs, held);
    let k = e1.len() + p;
    assert(lines[k] == e2[p]);
    assert(e2[p] == sample_line(need, held));
    assert(reads_as(v[0 + k], lines[k]));
}

} // verus!
