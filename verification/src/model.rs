//! The Fantom domain model: tones, zones and scenes.
//!
//! Roland's ZEN-Core hierarchy is **Tones → Zones → Scenes**: a [`Scene`] wires up to 16
//! [`Zone`]s, and each zone plays a tone ([`ToneRef`]) over a key range. These types are
//! decoupled from the on-disk layout, which lives in [`crate::container`].

use vstd::prelude::*;

verus! {

/// A saved set of zone keyboard switches, recalled from a pad.
#[derive(Debug, Clone, PartialEq, Eq)]
pub struct KeyboardGroup {
    /// 1-based group number, as the panel shows it.
    pub number: u8,
    /// 1-based zone numbers this group switches on.
    pub zones: Vec<u8>,
}

/// Why a zone sounds, or does not.
#[derive(Debug, Clone, Copy, PartialEq, Eq)]
pub enum ZoneState {
    /// Switched on and audible.
    On,
    /// Switched on, but muted.
    Muted,
    /// Switched off, and a keyboard group switches it on.
    Grouped,
    /// Switched off with settings of its own.
    Off,
    /// Switched off and still exactly as the factory left it.
    Unused,
}

impl ZoneState {
    pub open spec fn spec_as_str(self) -> &'static str {
        match self {
            ZoneState::On => "on",
            ZoneState::Muted => "muted",
            ZoneState::Grouped => "grouped",
            ZoneState::Off => "off",
            ZoneState::Unused => "unused",
        }
    }

    pub fn as_str(self) -> (s: &'static str)
        ensures
            s == self.spec_as_str(),
    {
        match self {
            ZoneState::On => "on",
            ZoneState::Muted => "muted",
            ZoneState::Grouped => "grouped",
            ZoneState::Off => "off",
            ZoneState::Unused => "unused",
        }
    }

    /// Whether the tone this zone plays is a dependency of the scene: everything but an
    /// untouched zone counts.
    pub fn is_played(self) -> (r: bool)
        ensures
            r == !(self is Unused),
    {
        !matches!(self, ZoneState::Unused)
    }
}

/// The raw MIDI bank/program address stored by a scene.
#[derive(Debug, Clone, Copy, PartialEq, Eq, Structural)]
pub struct ToneAddress {
    pub msb: u8,
    pub lsb: u8,
    /// Zero-based MIDI program number.
    pub pc: u8,
}

/// Sound-engine type selected by a tone address.
#[derive(Debug, Clone, Copy, PartialEq, Eq, Structural)]
pub enum ToneType {
    Drum,
    ZenCore,
    SnA,
    SnAp,
    SnEp,
    Exsn,
    Vtw,
    VPiano,
    Model,
    Exz,
    Acb,
    Unknown,
}

impl ToneType {
    pub open spec fn spec_label(self) -> &'static str {
        match self {
            ToneType::Drum => "Drum",
            ToneType::ZenCore => "ZEN-Core",
            ToneType::SnA => "SN-A",
            ToneType::SnAp => "SN-AP",
            ToneType::SnEp => "SN-EP",
            ToneType::Exsn => "EXSN",
            ToneType::Vtw => "VTW",
            ToneType::VPiano => "VPiano",
            ToneType::Model => "MODEL",
            ToneType::Exz => "EXZ",
            ToneType::Acb => "ACB",
            ToneType::Unknown => "Unknown",
        }
    }

    pub fn label(self) -> (s: &'static str)
        ensures
            s == self.spec_label(),
    {
        match self {
            ToneType::Drum => "Drum",
            ToneType::ZenCore => "ZEN-Core",
            ToneType::SnA => "SN-A",
            ToneType::SnAp => "SN-AP",
            ToneType::SnEp => "SN-EP",
            ToneType::Exsn => "EXSN",
            ToneType::Vtw => "VTW",
            ToneType::VPiano => "VPiano",
            ToneType::Model => "MODEL",
            ToneType::Exz => "EXZ",
            ToneType::Acb => "ACB",
            ToneType::Unknown => "Unknown",
        }
    }
}

/// The engine an `(MSB, LSB)` pair selects.
pub open spec fn engine_of(msb: u8, lsb: u8) -> ToneType {
    if msb == 86 || msb == 92 || msb == 100 {
        ToneType::Drum
    } else if msb == 87 {
        ToneType::ZenCore
    } else if msb == 89 {
        ToneType::SnA
    } else if msb == 90 || msb == 103 {
        ToneType::VPiano
    } else if msb == 91 {
        ToneType::Vtw
    } else if msb == 93 || msb == 101 {
        ToneType::Exz
    } else if msb == 97 {
        ToneType::Model
    } else if msb == 105 {
        if lsb == 0 || lsb == 64 || lsb == 66 {
            ToneType::SnAp
        } else if lsb == 1 || lsb == 65 {
            ToneType::SnEp
        } else {
            ToneType::Exsn
        }
    } else if msb == 107 {
        ToneType::Acb
    } else {
        ToneType::Unknown
    }
}

/// The bank label whose byte mapping is confirmed for an address of engine `t`.
pub open spec fn bank_label(t: ToneType, msb: u8, lsb: u8) -> Option<&'static str> {
    if t is ZenCore && lsb < 64 {
        Some("USER")
    } else if ((t is Drum || t is SnAp || t is Vtw) && lsb == 0) || (t is SnA && lsb <= 1) || (
    t is SnEp && lsb == 1) {
        Some("USER")
    } else if t is VPiano && lsb == 0 && msb == 90 {
        Some("USER")
    } else if t is Drum && lsb == 64 && msb == 86 {
        Some("PR-A")
    } else if t is Drum && lsb == 65 && msb == 86 {
        Some("CMN")
    } else if (t is SnA || t is Vtw) && lsb == 65 {
        Some("PRST")
    } else if t is VPiano && lsb == 64 && msb == 90 {
        Some("PRST")
    } else if t is VPiano && lsb == 64 && msb == 103 {
        Some("M09X01")
    } else if t is SnAp && lsb == 64 {
        Some("EXSN01")
    } else if t is SnEp && lsb == 65 {
        Some("EXSN02")
    } else if t is SnAp && lsb == 66 {
        Some("EXSN03")
    } else if t is Exz && msb == 93 {
        if lsb == 1 {
            Some("EXZ013")
        } else if lsb == 2 {
            Some("EXZ005")
        } else if lsb == 3 {
            Some("EXZ009")
        } else if 7 <= lsb <= 10 {
            Some("EXZ007")
        } else if 11 <= lsb <= 14 {
            Some("EXZ008")
        } else if 15 <= lsb <= 17 {
            Some("EXZ012")
        } else if 19 <= lsb <= 22 {
            Some("EXZ006")
        } else if lsb == 23 {
            Some("EXZ010")
        } else if lsb == 24 {
            Some("EXZ014")
        } else if lsb == 26 {
            Some("EXZ011")
        } else if lsb == 27 {
            Some("EXZ015")
        } else {
            None
        }
    } else if t is Exz && msb == 101 && lsb == 64 {
        Some("EXZ001")
    } else if t is Exz && msb == 101 && lsb == 65 {
        Some("EXZ002")
    } else if t is Drum && lsb == 64 && msb == 100 {
        Some("EXZ003")
    } else if t is Drum && lsb == 65 && msb == 100 {
        Some("EXZ004")
    } else if t is Model {
        if lsb == 0 || lsb == 64 {
            Some("USER")
        } else if lsb == 66 {
            Some("JP8")
        } else if lsb == 68 {
            Some("JU106")
        } else if lsb == 70 {
            Some("JX8P")
        } else if lsb == 72 {
            Some("n/zyme")
        } else if lsb == 79 {
            Some("SH101")
        } else {
            None
        }
    } else if t is Acb {
        if lsb == 0 {
            Some("USER")
        } else if lsb == 64 {
            Some("JP8")
        } else if lsb == 66 {
            Some("SH101")
        } else if lsb == 70 {
            Some("JU106")
        } else if lsb == 76 {
            Some("JX3P")
        } else {
            None
        }
    } else {
        None
    }
}

/// Which tone a zone plays, retaining its complete on-disk address.
#[derive(Debug, Clone, PartialEq)]
pub struct ToneRef {
    pub address: ToneAddress,
    /// Resolved bundled or factory name, when known.
    pub name: Option<String>,
}

impl ToneRef {
    pub fn new(msb: u8, lsb: u8, pc: u8, name: Option<String>) -> (r: Self)
        ensures
            r.address == (ToneAddress { msb, lsb, pc }),
            r.name == name,
    {
        ToneRef { address: ToneAddress { msb, lsb, pc }, name }
    }

    pub open spec fn spec_tone_type(&self) -> ToneType {
        engine_of(self.address.msb, self.address.lsb)
    }

    /// The sound engine the address selects.
    pub fn tone_type(&self) -> (t: ToneType)
        ensures
            t == self.spec_tone_type(),
    {
        let msb = self.address.msb;
        let lsb = self.address.lsb;
        if msb == 86 || msb == 92 || msb == 100 {
            ToneType::Drum
        } else if msb == 87 {
            ToneType::ZenCore
        } else if msb == 89 {
            ToneType::SnA
        } else if msb == 90 || msb == 103 {
            ToneType::VPiano
        } else if msb == 91 {
            ToneType::Vtw
        } else if msb == 93 || msb == 101 {
            ToneType::Exz
        } else if msb == 97 {
            ToneType::Model
        } else if msb == 105 {
            if lsb == 0 || lsb == 64 || lsb == 66 {
                ToneType::SnAp
            } else if lsb == 1 || lsb == 65 {
                ToneType::SnEp
            } else {
                ToneType::Exsn
            }
        } else if msb == 107 {
            ToneType::Acb
        } else {
            ToneType::Unknown
        }
    }

    /// User-facing bank label when its byte mapping is confirmed, `None` otherwise.
    ///
    /// Factory ZEN-Core presets are named by the sound list instead; see [`crate::presets`].
    pub fn bank(&self) -> (b: Option<&'static str>)
        ensures
            b == bank_label(self.spec_tone_type(), self.address.msb, self.address.lsb),
    {
        let t = self.tone_type();
        let msb = self.address.msb;
        let lsb = self.address.lsb;
        if matches!(t, ToneType::ZenCore) && lsb < 64 {
            Some("USER")
        } else if ((matches!(t, ToneType::Drum) || matches!(t, ToneType::SnAp) || matches!(
            t,
            ToneType::Vtw
        )) && lsb == 0) || (matches!(t, ToneType::SnA) && lsb <= 1) || (matches!(
            t,
            ToneType::SnEp
        ) && lsb == 1) {
            Some("USER")
        } else if matches!(t, ToneType::VPiano) && lsb == 0 && msb == 90 {
            Some("USER")
        } else if matches!(t, ToneType::Drum) && lsb == 64 && msb == 86 {
            Some("PR-A")
        } else if matches!(t, ToneType::Drum) && lsb == 65 && msb == 86 {
            Some("CMN")
        } else if (matches!(t, ToneType::SnA) || matches!(t, ToneType::Vtw)) && lsb == 65 {
            Some("PRST")
        } else if matches!(t, ToneType::VPiano) && lsb == 64 && msb == 90 {
            Some("PRST")
        } else if matches!(t, ToneType::VPiano) && lsb == 64 && msb == 103 {
            Some("M09X01")
        } else if matches!(t, ToneType::SnAp) && lsb == 64 {
            Some("EXSN01")
        } else if matches!(t, ToneType::SnEp) && lsb == 65 {
            Some("EXSN02")
        } else if matches!(t, ToneType::SnAp) && lsb == 66 {
            Some("EXSN03")
        } else if matches!(t, ToneType::Exz) && msb == 93 {
            if lsb == 1 {
                Some("EXZ013")
            } else if lsb == 2 {
                Some("EXZ005")
            } else if lsb == 3 {
                Some("EXZ009")
            } else if 7 <= lsb && lsb <= 10 {
                Some("EXZ007")
            } else if 11 <= lsb && lsb <= 14 {
                Some("EXZ008")
            } else if 15 <= lsb && lsb <= 17 {
                Some("EXZ012")
            } else if 19 <= lsb && lsb <= 22 {
                Some("EXZ006")
            } else if lsb == 23 {
                Some("EXZ010")
            } else if lsb == 24 {
                Some("EXZ014")
            } else if lsb == 26 {
                Some("EXZ011")
            } else if lsb == 27 {
                Some("EXZ015")
            } else {
                None
            }
        } else if matches!(t, ToneType::Exz) && msb == 101 && lsb == 64 {
            Some("EXZ001")
        } else if matches!(t, ToneType::Exz) && msb == 101 && lsb == 65 {
            Some("EXZ002")
        } else if matches!(t, ToneType::Drum) && lsb == 64 && msb == 100 {
            Some("EXZ003")
        } else if matches!(t, ToneType::Drum) && lsb == 65 && msb == 100 {
            Some("EXZ004")
        } else if matches!(t, ToneType::Model) {
            if lsb == 0 || lsb == 64 {
                Some("USER")
            } else if lsb == 66 {
                Some("JP8")
            } else if lsb == 68 {
                Some("JU106")
            } else if lsb == 70 {
                Some("JX8P")
            } else if lsb == 72 {
                Some("n/zyme")
            } else if lsb == 79 {
                Some("SH101")
            } else {
                None
            }
        } else if matches!(t, ToneType::Acb) {
            if lsb == 0 {
                Some("USER")
            } else if lsb == 64 {
                Some("JP8")
            } else if lsb == 66 {
                Some("SH101")
            } else if lsb == 70 {
                Some("JU106")
            } else if lsb == 76 {
                Some("JX3P")
            } else {
                None
            }
        } else {
            None
        }
    }

    /// The tone's display name when known.
    pub fn name(&self) -> (n: Option<&str>)
        ensures
            n is Some <==> self.name is Some,
            n matches Some(s) ==> s@ == self.name->0@,
    {
        match &self.name {
            Some(s) => Some(s.as_str()),
            None => None,
        }
    }
}

/// One of a scene's 16 zone slots: the tone it plays, its key range, and how it is set up.
#[derive(Debug, Clone, PartialEq)]
pub struct Zone {
    /// 0-based index within the scene (0..16).
    pub number: u8,
    /// Whether the zone is switched on — the panel's KBD switch.
    pub enabled: bool,
    /// Whether the zone is muted.
    pub muted: bool,
    /// The tone this zone plays.
    pub tone: ToneRef,
    /// Key-range lower bound (MIDI note).
    pub key_low: u8,
    /// Key-range upper bound (MIDI note).
    pub key_high: u8,
    /// Velocity-range lower bound.
    pub velocity_low: u8,
    /// Velocity-range upper bound.
    pub velocity_high: u8,
    /// Zone level (0..127).
    pub level: u8,
    /// Zone pan, zero-centred: −64 is hard left, +63 hard right.
    pub pan: i8,
    /// Transpose in semitones.
    pub transpose: i8,
    /// Octave shift.
    pub octave: i8,
    /// MIDI receive channel, 0-based.
    pub midi_channel: u8,
    /// Whether the arpeggiator is on for this zone.
    pub arpeggio: bool,
}

impl Zone {
    pub open spec fn spec_is_at_factory_default(&self) -> bool {
        self.key_low == 0 && self.key_high == 127 && self.velocity_low == 1 && self.velocity_high
            == 127 && self.level == 100 && self.pan == 0 && self.transpose == 0 && self.octave == 0
    }

    /// Whether every setting still holds the value the panel gives a fresh zone.
    pub fn is_at_factory_default(&self) -> (r: bool)
        ensures
            r == self.spec_is_at_factory_default(),
    {
        self.key_low == 0 && self.key_high == 127 && self.velocity_low == 1 && self.velocity_high
            == 127 && self.level == 100 && self.pan == 0 && self.transpose == 0 && self.octave == 0
    }
}

/// A named performance: up to 16 zones plus scene-level metadata.
#[derive(Debug, Clone, PartialEq)]
pub struct Scene {
    pub name: String,
    /// Free-text scene comment/memo (empty when unset).
    pub comment: String,
    /// Scene tempo in hundredths of a BPM, as stored: `12000` is 120.00.
    pub tempo: u16,
    /// Scene level (0..127).
    pub level: u8,
    pub zones: Vec<Zone>,
    /// Keyboard switch groups the scene actually configures.
    pub groups: Vec<KeyboardGroup>,
}

/// The numbers of the groups among `groups` that list `zone`, in order.
pub open spec fn groups_with(groups: Seq<KeyboardGroup>, zone: u8) -> Seq<u8>
    decreases groups.len(),
{
    if groups.len() == 0 {
        Seq::empty()
    } else {
        let rest = groups_with(groups.drop_last(), zone);
        if groups.last().zones@.contains(zone) {
            rest.push(groups.last().number)
        } else {
            rest
        }
    }
}

/// How a zone stands in a scene with these keyboard groups.
pub open spec fn state_of(groups: Seq<KeyboardGroup>, zone: Zone) -> ZoneState {
    if zone.enabled {
        if zone.muted {
            ZoneState::Muted
        } else {
            ZoneState::On
        }
    } else if groups_with(groups, (zone.number + 1) as u8).len() > 0 {
        ZoneState::Grouped
    } else if zone.spec_is_at_factory_default() {
        ZoneState::Unused
    } else {
        ZoneState::Off
    }
}

fn contains_u8(v: &Vec<u8>, x: u8) -> (r: bool)
    ensures
        r == v@.contains(x),
{
    let mut i: usize = 0;
    while i < v.len()
        invariant
            i <= v@.len(),
            forall|j: int| 0 <= j < i ==> v@[j] != x,
        decreases v@.len() - i,
    {
        if v[i] == x {
            return true;
        }
        i = i + 1;
    }
    false
}

impl Scene {
    /// The configured groups that switch `zone_number` (1-based) on, in group order.
    pub fn groups_containing(&self, zone_number: u8) -> (r: Vec<u8>)
        ensures
            r@ == groups_with(self.groups@, zone_number),
    {
        let mut out: Vec<u8> = Vec::new();
        let mut i: usize = 0;
        while i < self.groups.len()
            invariant
                i <= self.groups@.len(),
                out@ == groups_with(self.groups@.subrange(0, i as int), zone_number),
            decreases self.groups@.len() - i,
        {
            let ghost prefix = self.groups@.subrange(0, i + 1);
            assert(prefix.drop_last() =~= self.groups@.subrange(0, i as int));
            if contains_u8(&self.groups[i].zones, zone_number) {
                out.push(self.groups[i].number);
            }
            i = i + 1;
        }
        assert(self.groups@.subrange(0, self.groups@.len() as int) =~= self.groups@);
        out
    }

    /// How a zone stands in this scene: playing, silent by choice, or never used.
    pub fn zone_state(&self, zone: &Zone) -> (s: ZoneState)
        requires
            zone.number < 255,
        ensures
            s == state_of(self.groups@, *zone),
    {
        if zone.enabled {
            return if zone.muted {
                ZoneState::Muted
            } else {
                ZoneState::On
            };
        }
        if self.groups_containing(zone.number + 1).len() > 0 {
            return ZoneState::Grouped;
        }
        if zone.is_at_factory_default() {
            ZoneState::Unused
        } else {
            ZoneState::Off
        }
    }
}


/// The documented bank of every tone address, read from its MSB and LSB alone. User banks:
/// ZEN-Core (MSB 87) below LSB 64, drum kits (86, 92, 100), SN-AP (105) and VTW (91) at LSB 0,
/// SN-A (89) at LSB 0 and 1, SN-EP (105) at LSB 1, V-Piano (90) at LSB 0, models (97) at 0 and
/// 64, ACB (107) at 0. Factory and expansion banks as the table below lists them; every other
/// address has no confirmed bank.
pub proof fn law_bank_table(t: ToneRef)
    ensures
        ({
            let msb = t.address.msb;
            let lsb = t.address.lsb;
            let bank = bank_label(t.spec_tone_type(), msb, lsb);
            &&& msb == 87 && lsb < 64 ==> bank == Some("USER")
            &&& (msb == 86 || msb == 92 || msb == 100 || msb == 91) && lsb == 0 ==> bank == Some("USER")
            &&& msb == 105 && (lsb == 0 || lsb == 1) ==> bank == Some("USER")
            &&& msb == 89 && lsb <= 1 ==> bank == Some("USER")
            &&& msb == 90 && lsb == 0 ==> bank == Some("USER")
            &&& msb == 86 && lsb == 64 ==> bank == Some("PR-A")
            &&& msb == 86 && lsb == 65 ==> bank == Some("CMN")
            &&& (msb == 89 || msb == 91) && lsb == 65 ==> bank == Some("PRST")
            &&& msb == 90 && lsb == 64 ==> bank == Some("PRST")
            &&& msb == 103 && lsb == 64 ==> bank == Some("M09X01")
            &&& msb == 105 && lsb == 64 ==> bank == Some("EXSN01")
            &&& msb == 105 && lsb == 65 ==> bank == Some("EXSN02")
            &&& msb == 105 && lsb == 66 ==> bank == Some("EXSN03")
            &&& msb == 93 && lsb == 1 ==> bank == Some("EXZ013")
            &&& msb == 93 && lsb == 2 ==> bank == Some("EXZ005")
            &&& msb == 93 && lsb == 3 ==> bank == Some("EXZ009")
            &&& msb == 93 && 7 <= lsb <= 10 ==> bank == Some("EXZ007")
            &&& msb == 93 && 11 <= lsb <= 14 ==> bank == Some("EXZ008")
            &&& msb == 93 && 15 <= lsb <= 17 ==> bank == Some("EXZ012")
            &&& msb == 93 && 19 <= lsb <= 22 ==> bank == Some("EXZ006")
            &&& msb == 93 && lsb == 23 ==> bank == Some("EXZ010")
            &&& msb == 93 && lsb == 24 ==> bank == Some("EXZ014")
            &&& msb == 93 && lsb == 26 ==> bank == Some("EXZ011")
            &&& msb == 93 && lsb == 27 ==> bank == Some("EXZ015")
            &&& msb == 101 && lsb == 64 ==> bank == Some("EXZ001")
            &&& msb == 101 && lsb == 65 ==> bank == Some("EXZ002")
            &&& msb == 100 && lsb == 64 ==> bank == Some("EXZ003")
            &&& msb == 100 && lsb == 65 ==> bank == Some("EXZ004")
            &&& msb == 97 && (lsb == 0 || lsb == 64) ==> bank == Some("USER")
            &&& msb == 97 && lsb == 66 ==> bank == Some("JP8")
            &&& msb == 97 && lsb == 68 ==> bank == Some("JU106")
            &&& msb == 97 && lsb == 70 ==> bank == Some("JX8P")
            &&& msb == 97 && lsb == 72 ==> bank == Some("n/zyme")
            &&& msb == 97 && lsb == 79 ==> bank == Some("SH101")
            &&& msb == 107 && lsb == 0 ==> bank == Some("USER")
            &&& msb == 107 && lsb == 64 ==> bank == Some("JP8")
            &&& msb == 107 && lsb == 66 ==> bank == Some("SH101")
            &&& msb == 107 && lsb == 70 ==> bank == Some("JU106")
            &&& msb == 107 && lsb == 76 ==> bank == Some("JX3P")
            &&& !((msb == 87 && lsb < 64) || ((msb == 86 || msb == 92 || msb == 100 || msb == 91 || msb == 90)
                && lsb == 0) || (msb == 105 && (lsb <= 1 || 64 <= lsb <= 66)) || (msb == 89 && lsb <= 1)
                || (msb == 86 && (lsb == 64 || lsb == 65)) || ((msb == 89 || msb == 91) && lsb == 65) || ((msb
                == 90 || msb == 103) && lsb == 64) || (msb == 93 && ((1 <= lsb <= 3) || (7 <= lsb <= 17) || (19
                <= lsb <= 24) || lsb == 26 || lsb == 27)) || ((msb == 101 || msb == 100) && (lsb == 64 || lsb
                == 65)) || (msb == 97 && (lsb == 0 || lsb == 64 || lsb == 66 || lsb == 68 || lsb == 70 || lsb
                == 72 || lsb == 79)) || (msb == 107 && (lsb == 0 || lsb == 64 || lsb == 66 || lsb == 70 || lsb
                == 76))) ==> bank is None
        }),
{
}

/// The engine a tone address selects, read from its bank-select bytes: MSB 86, 92 and 100 are
/// drum kits, 87 ZEN-Core, 89 SN-A, 90 and 103 V-Piano, 91 VTW, 93 and 101 EXZ, 97 models and
/// 107 ACB; MSB 105 is SN-AP at LSB 0, 64 and 66, SN-EP at 1 and 65, and EXSN otherwise. Every
/// other MSB is unknown.
pub proof fn law_engine_table(t: ToneRef)
    ensures
        ({
            let msb = t.address.msb;
            let lsb = t.address.lsb;
            let e = t.spec_tone_type();
            &&& (msb == 86 || msb == 92 || msb == 100) ==> e == ToneType::Drum
            &&& msb == 87 ==> e == ToneType::ZenCore
            &&& msb == 89 ==> e == ToneType::SnA
            &&& (msb == 90 || msb == 103) ==> e == ToneType::VPiano
            &&& msb == 91 ==> e == ToneType::Vtw
            &&& (msb == 93 || msb == 101) ==> e == ToneType::Exz
            &&& msb == 97 ==> e == ToneType::Model
            &&& msb == 105 && (lsb == 0 || lsb == 64 || lsb == 66) ==> e == ToneType::SnAp
            &&& msb == 105 && (lsb == 1 || lsb == 65) ==> e == ToneType::SnEp
            &&& msb == 105 && !(lsb == 0 || lsb == 64 || lsb == 66 || lsb == 1 || lsb == 65) ==> e == ToneType::Exsn
            &&& msb == 107 ==> e == ToneType::Acb
            &&& !(msb == 86 || msb == 92 || msb == 100 || msb == 87 || msb == 89 || msb == 90 || msb == 103 || msb
                == 91 || msb == 93 || msb == 101 || msb == 97 || msb == 105 || msb == 107) ==> e == ToneType::Unknown
        }),
{
}

} // verus!
