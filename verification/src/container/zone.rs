//! The two per-zone tables of a scene record.

use vstd::prelude::*;

use crate::{Error, Result};

verus! {

/// One entry of the scene record's zone table (record-relative `0x6d0`, 16 × 96 bytes): the
/// zone's switch and key range.
#[derive(Debug, Clone, Copy, PartialEq, Eq)]
pub struct RawZone {
    /// +0x04 — zone on/off.
    pub enable: u8,
    /// +0x08 — key-range lower (MIDI note).
    pub key_low: u8,
    /// +0x09 — key-range upper (MIDI note).
    pub key_high: u8,
    /// +0x3e — constant `cf cd` marker; validates the offset alignment.
    pub marker: [u8; 2],
}

/// The marker every real zone entry carries.
pub open spec fn zone_marker() -> Seq<u8> {
    seq![0xcfu8, 0xcd]
}

impl RawZone {
    /// On-disk length of one zone entry.
    pub const LEN: usize = 0x60;
    /// Record-relative offset of the zone table.
    pub const TABLE_OFFSET: usize = 0x6d0;
    /// Offset of the alignment marker within an entry.
    pub const MARKER_OFFSET: usize = 0x3e;

    /// The alignment marker, `cf cd`.
    pub fn marker() -> (m: [u8; 2])
        ensures
            m@ == zone_marker(),
    {
        let m = [0xcfu8, 0xcd];
        assert(m@ =~= zone_marker());
        m
    }

    /// Decode the zone entry at the start of `bytes`.
    pub fn read(bytes: &[u8]) -> (r: Result<RawZone>)
        ensures
            bytes@.len() < 0x60 ==> r == Err::<RawZone, Error>(
                Error::ShortRecord { needed: 0x60, got: bytes@.len() as usize },
            ),
            bytes@.len() >= 0x60 && bytes@.subrange(0x3e, 0x40) != zone_marker() ==> (r matches Err(
                Error::ZoneMarker { found },
            ) && found@ == bytes@.subrange(0x3e, 0x40)),
            r is Ok <==> bytes@.len() >= 0x60 && bytes@.subrange(0x3e, 0x40) == zone_marker(),
            r matches Ok(z) ==> z.enable == bytes@[4] && z.key_low == bytes@[8] && z.key_high
                == bytes@[9] && z.marker@ == zone_marker(),
    {
        if bytes.len() < Self::LEN {
            return Err(Error::ShortRecord { needed: Self::LEN, got: bytes.len() });
        }
        let marker = [bytes[0x3e], bytes[0x3f]];
        assert(marker@ =~= bytes@.subrange(0x3e, 0x40));
        if !(marker[0] == 0xcf && marker[1] == 0xcd) {
            assert(marker@ != zone_marker());
            return Err(Error::ZoneMarker { found: marker });
        }
        assert(marker@ =~= zone_marker());
        Ok(RawZone { enable: bytes[4], key_low: bytes[8], key_high: bytes[9], marker })
    }
}

/// One entry of the scene record's zone settings table (record-relative `0x194`, 16 × 72
/// bytes). Only `level` is decoded here; the tone address sits at its start.
#[derive(Debug, Clone, Copy, PartialEq, Eq)]
pub struct ZoneSettings {
    /// +0x07 — zone level (0..127).
    pub level: u8,
}

impl ZoneSettings {
    /// On-disk length of one settings entry.
    pub const LEN: usize = 0x48;
    /// Record-relative offset of the settings table.
    pub const TABLE_OFFSET: usize = 0x194;

    /// Decode the settings entry at the start of `bytes`.
    pub fn read(bytes: &[u8]) -> (r: Result<ZoneSettings>)
        ensures
            bytes@.len() < 0x48 ==> r == Err::<ZoneSettings, Error>(
                Error::ShortRecord { needed: 0x48, got: bytes@.len() as usize },
            ),
            bytes@.len() >= 0x48 ==> r == Ok::<ZoneSettings, Error>(
                ZoneSettings { level: bytes@[7] },
            ),
    {
        if bytes.len() < Self::LEN {
            return Err(Error::ShortRecord { needed: Self::LEN, got: bytes.len() });
        }
        Ok(ZoneSettings { level: bytes[7] })
    }
}

} // verus!
