//! The user sample bank: `SMPa` slots, `MLSa` multisamples, and the `USDa` waveform payload.
//!
//! - `SMPa` — fixed slots of 84 bytes each: name, in-use flag, level, loop mode, original key,
//!   and start/loop/end points in frames. One record per panel sample slot, used or not.
//! - `USDa` — the audio. A directory of 8-byte `{sample_index, offset}` entries terminated by
//!   `0xFFFFFFFF`, each offset pointing at an `SMPd` section holding 16-bit PCM.
//! - `MLSa` — multisamples, 1040 bytes each; an untouched one is the factory `INITIAL MSMPL`.

use vstd::prelude::*;

use crate::bytes::{bytes_equal, le32, read_u32, same_tag};
use crate::container::records::{data_start, table_error, whole_records, HEADER_LEN};
use crate::container::svd::{first_area, fits};
use crate::container::{Area, Raw, RecordTable, Svd};
use crate::text::{ascii_trim, debug_str, decimal, field_text, push_debug_str, push_decimal, push_str};
use crate::{Error, Result};

verus! {

/// One of the user sample slots.
#[derive(Debug, Clone, PartialEq, Eq)]
pub struct SampleSlot {
    /// Zero-based slot number.
    pub index: usize,
    pub name: String,
    /// Whether the slot holds a sample.
    pub in_use: bool,
    pub level: u8,
    /// 0 = off, 1 and 2 seen; the exact loop modes are not confirmed.
    pub loop_mode: u8,
    /// MIDI note the sample plays at its recorded pitch (60 = C4 by default).
    pub original_key: u8,
    /// Playback start, in frames.
    pub start: u32,
    /// Loop point, in frames.
    pub loop_point: u32,
    /// Playback end, in frames.
    pub end: u32,
}

/// One `SMPd` waveform section inside `USDa`.
#[derive(Debug, Clone, PartialEq, Eq)]
pub struct SampleData {
    /// The `SMPa` slot this audio belongs to.
    pub slot: u32,
    /// Offset of the `SMPd` magic within the `USDa` body.
    pub offset: usize,
    /// Name as stored in the section header.
    pub name: String,
    /// Section size in bytes.
    pub size: u32,
    /// Number of 16-bit words of PCM: two per frame, i.e. stereo.
    pub words: u32,
    pub sample_rate: u32,
}

impl SampleData {
    /// Length in frames.
    pub fn frames(&self) -> (n: u32)
        ensures
            n == self.words / 2,
    {
        self.words / 2
    }
}

/// One multisample slot that differs from the factory default.
#[derive(Debug, Clone, PartialEq, Eq)]
pub struct Multisample {
    pub index: usize,
    pub name: String,
    /// Whether the record differs from the factory `INITIAL MSMPL` default.
    pub edited: bool,
}

/// The user sample bank of one file.
#[derive(Debug, Clone, PartialEq, Eq)]
pub struct SampleBank {
    /// Slots that hold a sample, in slot order. Empty slots are omitted.
    pub slots: Vec<SampleSlot>,
    /// Waveform sections found in `USDa`, in directory order.
    pub data: Vec<SampleData>,
    /// Multisamples that differ from the factory default.
    pub multisamples: Vec<Multisample>,
}

/// The message for a slot that has no waveform section.
pub open spec fn slot_orphan(index: usize, name: Seq<char>) -> Seq<char> {
    "slot "@ + decimal(index as nat) + " "@ + debug_str(name) + " has no waveform data"@
}

/// The message for a waveform section whose slot is not in use.
pub open spec fn data_orphan(name: Seq<char>, slot: u32) -> Seq<char> {
    "waveform "@ + debug_str(name) + " points at unused slot "@ + decimal(slot as nat)
}

/// Whether some waveform section belongs to slot `index`.
pub open spec fn has_data(data: Seq<SampleData>, index: usize) -> bool {
    exists|j: int| 0 <= j < data.len() && data[j].slot as usize == index
}

/// Whether some used slot has the number `slot`.
pub open spec fn has_slot(slots: Seq<SampleSlot>, slot: u32) -> bool {
    exists|j: int| 0 <= j < slots.len() && slots[j].index == slot as usize
}

/// The messages for slots `0..n` that have no waveform.
pub open spec fn slot_orphans(bank: SampleBank, n: int) -> Seq<Seq<char>>
    decreases n,
{
    if n <= 0 {
        Seq::empty()
    } else {
        let rest = slot_orphans(bank, n - 1);
        let slot = bank.slots@[n - 1];
        if has_data(bank.data@, slot.index) {
            rest
        } else {
            rest.push(slot_orphan(slot.index, slot.name@))
        }
    }
}

/// The messages for waveform sections `0..n` whose slot is unused.
pub open spec fn data_orphans(bank: SampleBank, n: int) -> Seq<Seq<char>>
    decreases n,
{
    if n <= 0 {
        Seq::empty()
    } else {
        let rest = data_orphans(bank, n - 1);
        let d = bank.data@[n - 1];
        if has_slot(bank.slots@, d.slot) {
            rest
        } else {
            rest.push(data_orphan(d.name@, d.slot))
        }
    }
}

impl SampleBank {
    /// Whether the file carries any user sampling at all.
    pub fn is_empty(&self) -> (r: bool)
        ensures
            r == (self.slots@.len() == 0 && self.data@.len() == 0 && self.multisamples@.len()
                == 0),
    {
        self.slots.len() == 0 && self.data.len() == 0 && self.multisamples.len() == 0
    }

    /// Audio present in `USDa` with no matching `SMPa` slot, or a slot with no audio — either
    /// means the two areas disagree and the bank should not be trusted for copying. Slots come
    /// first, in slot order, then waveforms, in directory order.
    pub fn orphans(&self) -> (out: Vec<String>)
        ensures
            out@.map_values(|s: String| s@) == slot_orphans(*self, self.slots@.len() as int)
                + data_orphans(*self, self.data@.len() as int),
    {
        let mut out: Vec<String> = Vec::new();
        let mut i: usize = 0;
        while i < self.slots.len()
            invariant
                i <= self.slots@.len(),
                out@.map_values(|s: String| s@) == slot_orphans(*self, i as int),
            decreases self.slots@.len() - i,
        {
            let slot = &self.slots[i];
            let mut found = false;
            let mut j: usize = 0;
            while j < self.data.len()
                invariant
                    j <= self.data@.len(),
                    found == exists|k: int|
                        0 <= k < j && self.data@[k].slot as usize == slot.index,
                decreases self.data@.len() - j,
            {
                if self.data[j].slot as usize == slot.index {
                    found = true;
                }
                j = j + 1;
            }
            assert(found == has_data(self.data@, slot.index));
            if !found {
                let mut line = String::new();
                push_str(&mut line, "slot ");
                push_decimal(&mut line, slot.index as u64);
                push_str(&mut line, " ");
                push_debug_str(&mut line, slot.name.as_str());
                push_str(&mut line, " has no waveform data");
                out.push(line);
            }
            i = i + 1;
            assert(out@.map_values(|s: String| s@) =~= slot_orphans(*self, i as int));
        }
        let ghost first = out@.map_values(|s: String| s@);
        let mut i: usize = 0;
        while i < self.data.len()
            invariant
                i <= self.data@.len(),
                first == slot_orphans(*self, self.slots@.len() as int),
                out@.map_values(|s: String| s@) == first + data_orphans(*self, i as int),
            decreases self.data@.len() - i,
        {
            let d = &self.data[i];
            let mut found = false;
            let mut j: usize = 0;
            while j < self.slots.len()
                invariant
                    j <= self.slots@.len(),
                    found == exists|k: int|
                        0 <= k < j && self.slots@[k].index == d.slot as usize,
                decreases self.slots@.len() - j,
            {
                if self.slots[j].index == d.slot as usize {
                    found = true;
                }
                j = j + 1;
            }
            assert(found == has_slot(self.slots@, d.slot));
            let ghost prev = out@.map_values(|s: String| s@);
            if !found {
                let mut line = String::new();
                push_str(&mut line, "waveform ");
                push_debug_str(&mut line, d.name.as_str());
                push_str(&mut line, " points at unused slot ");
                push_decimal(&mut line, d.slot as u64);
                assert(line@ == data_orphan(d.name@, d.slot));
                out.push(line);
                assert(out@.map_values(|s: String| s@) =~= prev.push(data_orphan(d.name@, d.slot)));
                assert(prev.push(data_orphan(d.name@, d.slot)) =~= first + data_orphans(
                    *self,
                    i as int,
                ).push(data_orphan(d.name@, d.slot)));
            }
            assert(data_orphans(*self, i + 1) == if has_slot(self.slots@, d.slot) {
                data_orphans(*self, i as int)
            } else {
                data_orphans(*self, i as int).push(data_orphan(d.name@, d.slot))
            });
            i = i + 1;
            assert(out@.map_values(|s: String| s@) =~= first + data_orphans(*self, i as int));
        }
        out
    }
}

/// Field offsets within an `SMPa` slot record.
pub const IN_USE: usize = 0x40;
pub const LEVEL: usize = 0x41;
pub const LOOP_MODE: usize = 0x44;
pub const ORIGINAL_KEY: usize = 0x45;
pub const START: usize = 0x48;
pub const LOOP_POINT: usize = 0x4c;
pub const END: usize = 0x50;
/// Bytes a slot record needs for every field above.
pub const SLOT_LEN: usize = 0x54;

/// Whether a slot record is listed: a name, or the in-use flag.
pub open spec fn slot_listed(r: Seq<u8>) -> bool {
    field_text(r.subrange(0, 16)).len() > 0 || r[IN_USE as int] != 0
}

/// Whether `s` is slot `index` decoded from record `r`.
pub open spec fn is_slot(s: SampleSlot, r: Seq<u8>, index: int) -> bool {
    &&& s.index == index
    &&& s.name@ == field_text(r.subrange(0, 16))
    &&& s.in_use == (r[IN_USE as int] != 0)
    &&& s.level == r[LEVEL as int]
    &&& s.loop_mode == r[LOOP_MODE as int]
    &&& s.original_key == r[ORIGINAL_KEY as int]
    &&& s.start == le32(r, START as int)
    &&& s.loop_point == le32(r, LOOP_POINT as int)
    &&& s.end == le32(r, END as int)
}

/// The listed slots among the first `n` records of a slot table.
pub open spec fn listed_slots(t: RecordTable, n: int) -> Seq<int>
    decreases n,
{
    if n <= 0 {
        Seq::empty()
    } else {
        let rest = listed_slots(t, n - 1);
        if t.record_size >= SLOT_LEN && slot_listed(t.spec_record(n - 1)) {
            rest.push(n - 1)
        } else {
            rest
        }
    }
}

fn decode_slot(record: &[u8], index: usize) -> (s: Option<SampleSlot>)
    requires
        record@.len() >= SLOT_LEN,
    ensures
        s is Some <==> slot_listed(record@),
        s matches Some(x) ==> is_slot(x, record@, index as int),
{
    let name = ascii_trim(vstd::slice::slice_subrange(record, 0, 16));
    if name.unicode_len() == 0 && record[IN_USE] == 0 {
        return None;
    }
    Some(
        SampleSlot {
            index,
            name,
            in_use: record[IN_USE] != 0,
            level: record[LEVEL],
            loop_mode: record[LOOP_MODE],
            original_key: record[ORIGINAL_KEY],
            start: read_u32(record, START).unwrap(),
            loop_point: read_u32(record, LOOP_POINT).unwrap(),
            end: read_u32(record, END).unwrap(),
        },
    )
}

/// The used slots of an `SMPa` table, in slot order.
pub fn read_slot_table(table: &RecordTable) -> (slots: Vec<SampleSlot>)
    requires
        table.wf(),
    ensures
        slots@.len() == listed_slots(*table, table.spec_len() as int).len(),
        forall|k: int|
            0 <= k < slots@.len() ==> {
                let index = listed_slots(*table, table.spec_len() as int)[k];
                is_slot(#[trigger] slots@[k], table.spec_record(index), index)
            },
{
    let n = table.len();
    let mut slots: Vec<SampleSlot> = Vec::new();
    let mut index: usize = 0;
    while index < n
        invariant
            table.wf(),
            n == table.spec_len(),
            index <= n,
            slots@.len() == listed_slots(*table, index as int).len(),
            forall|k: int|
                0 <= k < slots@.len() ==> {
                    let i = listed_slots(*table, index as int)[k];
                    is_slot(#[trigger] slots@[k], table.spec_record(i), i)
                },
        decreases n - index,
    {
        let record = table.record(index).unwrap();
        let ghost before = slots@;
        let ghost listed = listed_slots(*table, index as int);
        if record.len() >= SLOT_LEN {
            match decode_slot(record, index) {
                Some(s) => {
                    slots.push(s);
                    assert(listed_slots(*table, index + 1) == listed.push(index as int));
                    assert forall|k: int| 0 <= k < slots@.len() implies {
                        let i = listed_slots(*table, index + 1)[k];
                        is_slot(#[trigger] slots@[k], table.spec_record(i), i)
                    } by {
                        if k < before.len() {
                            assert(slots@[k] == before[k]);
                            assert(listed.push(index as int)[k] == listed[k]);
                        }
                    }
                },
                None => {
                    assert(listed_slots(*table, index + 1) == listed);
                },
            }
        } else {
            assert(listed_slots(*table, index + 1) == listed);
        }
        index = index + 1;
    }
    slots
}

/// The `SMPd` magic.
pub open spec fn smpd() -> Seq<u8> {
    seq![0x53u8, 0x4d, 0x50, 0x64]
}

/// Header fields of an `SMPd` section.
pub const SMPD_SIZE: usize = 0x08;
pub const SMPD_WORDS: usize = 0x0c;
pub const SMPD_NAME: usize = 0x10;
pub const SMPD_RATE: usize = 0x20;
pub const SMPD_HEADER_LEN: usize = 0x24;

/// The section offset directory entry `e` of a `USDa` body points at.
pub open spec fn entry_offset(body: Seq<u8>, e: int) -> int {
    le32(body, 8 * e + 4) as int
}

/// Whether the directory walk stops at entry `e`: past the whole entries, at the terminator,
/// or at an offset that holds no `SMPd` section.
pub open spec fn walk_stops(body: Seq<u8>, e: int) -> bool {
    ||| 8 * e + 8 > body.len()
    ||| le32(body, 8 * e) == 0xFFFF_FFFFu32
    ||| entry_offset(body, e) + SMPD_HEADER_LEN > body.len()
    ||| body.subrange(entry_offset(body, e), entry_offset(body, e) + 4) != smpd()
}

/// The first entry at or after `e` where the walk stops.
pub open spec fn first_stop(body: Seq<u8>, e: int) -> int
    decreases body.len() - 8 * e,
{
    if e < 0 || walk_stops(body, e) {
        e
    } else {
        first_stop(body, e + 1)
    }
}

/// Whether `d` is the waveform section that directory entry `e` describes.
pub open spec fn is_data(d: SampleData, body: Seq<u8>, e: int) -> bool {
    let at = entry_offset(body, e);
    &&& d.slot == le32(body, 8 * e)
    &&& d.offset == at
    &&& d.name@ == field_text(body.subrange(at + SMPD_NAME, at + SMPD_NAME + 16))
    &&& d.size == le32(body, at + SMPD_SIZE)
    &&& d.words == le32(body, at + SMPD_WORDS)
    &&& d.sample_rate == le32(body, at + SMPD_RATE)
}

/// Walk a `USDa` body's directory to its terminator.
pub fn read_directory(body: &[u8]) -> (out: Vec<SampleData>)
    ensures
        out@.len() == first_stop(body@, 0),
        forall|e: int| 0 <= e < out@.len() ==> is_data(#[trigger] out@[e], body@, e),
{
    let total = body.len();
    let mut out: Vec<SampleData> = Vec::new();
    let mut e: usize = 0;
    loop
        invariant
            total == body@.len(),
            8 * e <= total,
            first_stop(body@, 0) == first_stop(body@, e as int),
            out@.len() == e,
            forall|k: int| 0 <= k < out@.len() ==> is_data(#[trigger] out@[k], body@, k),
        decreases total - 8 * e,
    {
        if total - 8 * e < 8 {
            return out;
        }
        let at = 8 * e;
        let slot = read_u32(body, at).unwrap();
        let offset = read_u32(body, at + 4).unwrap() as usize;
        if slot == 0xFFFF_FFFFu32 {
            return out;
        }
        if offset > total || total - offset < SMPD_HEADER_LEN {
            return out;
        }
        let magic = [body[offset], body[offset + 1], body[offset + 2], body[offset + 3]];
        let expected = [0x53u8, 0x4d, 0x50, 0x64];
        assert(magic@ =~= body@.subrange(offset as int, offset + 4));
        assert(expected@ =~= smpd());
        if !same_tag(&magic, &expected) {
            return out;
        }
        out.push(
            SampleData {
                slot,
                offset,
                name: ascii_trim(
                    vstd::slice::slice_subrange(body, offset + SMPD_NAME, offset + SMPD_NAME + 16),
                ),
                size: read_u32(body, offset + SMPD_SIZE).unwrap(),
                words: read_u32(body, offset + SMPD_WORDS).unwrap(),
                sample_rate: read_u32(body, offset + SMPD_RATE).unwrap(),
            },
        );
        e = e + 1;
    }
}

/// The factory-default multisample record of `size` bytes: the `INITIAL MSMPL` name, space
/// padded, followed by the same 8-byte entry for every key.
pub open spec fn factory_multisample(size: nat) -> Seq<u8> {
    let name = seq![
        0x49u8, 0x4e, 0x49, 0x54, 0x49, 0x41, 0x4c, 0x20, 0x4d, 0x53, 0x4d, 0x50, 0x4c, 0x20, 0x20,
        0x20,
    ];
    let entry = seq![0x00u8, 0x00, 0x7f, 0x00, 0x80, 0x00, 0x00, 0x00];
    Seq::new(
        size,
        |i: int|
            if i < 16 {
                name[i]
            } else {
                entry[(i - 16) % 8]
            },
    )
}

/// Build the factory-default multisample record.
pub fn factory_multisample_record(size: usize) -> (r: Vec<u8>)
    ensures
        r@ == factory_multisample(size as nat),
{
    let name: [u8; 16] = [
        0x49u8, 0x4e, 0x49, 0x54, 0x49, 0x41, 0x4c, 0x20, 0x4d, 0x53, 0x4d, 0x50, 0x4c, 0x20, 0x20,
        0x20,
    ];
    let entry: [u8; 8] = [0x00u8, 0x00, 0x7f, 0x00, 0x80, 0x00, 0x00, 0x00];
    assert(name@ =~= seq![
        0x49u8, 0x4e, 0x49, 0x54, 0x49, 0x41, 0x4c, 0x20, 0x4d, 0x53, 0x4d, 0x50, 0x4c, 0x20, 0x20,
        0x20,
    ]);
    assert(entry@ =~= seq![0x00u8, 0x00, 0x7f, 0x00, 0x80, 0x00, 0x00, 0x00]);
    let mut r: Vec<u8> = Vec::new();
    let mut i: usize = 0;
    while i < size
        invariant
            i <= size,
            name@ == seq![
                0x49u8, 0x4e, 0x49, 0x54, 0x49, 0x41, 0x4c, 0x20, 0x4d, 0x53, 0x4d, 0x50, 0x4c,
                0x20, 0x20, 0x20,
            ],
            entry@ == seq![0x00u8, 0x00, 0x7f, 0x00, 0x80, 0x00, 0x00, 0x00],
            r@ == factory_multisample(i as nat),
        decreases size - i,
    {
        if i < 16 {
            r.push(name[i]);
        } else {
            r.push(entry[(i - 16) % 8]);
        }
        i = i + 1;
        assert(r@ =~= factory_multisample(i as nat));
    }
    r
}

/// The length of a record's name field as read: 16 bytes, or all of a shorter record.
pub open spec fn head_len(r: Seq<u8>) -> int {
    if r.len() < 16 {
        r.len() as int
    } else {
        16
    }
}

/// The records among the first `n` of a table that differ from the factory default.
pub open spec fn edited_records(t: RecordTable, n: int) -> Seq<int>
    decreases n,
{
    if n <= 0 {
        Seq::empty()
    } else {
        let rest = edited_records(t, n - 1);
        if t.spec_record(n - 1) != factory_multisample(t.record_size as nat) {
            rest.push(n - 1)
        } else {
            rest
        }
    }
}

/// The multisamples of an `MLSa` table that differ from the factory default, in slot order.
pub fn read_multisample_table(table: &RecordTable) -> (out: Vec<Multisample>)
    requires
        table.wf(),
    ensures
        out@.len() == edited_records(*table, table.spec_len() as int).len(),
        forall|k: int|
            0 <= k < out@.len() ==> {
                let index = edited_records(*table, table.spec_len() as int)[k];
                let r = table.spec_record(index);
                &&& (#[trigger] out@[k]).index == index
                &&& out@[k].edited
                &&& out@[k].name@ == field_text(r.subrange(0, head_len(r)))
            },
{
    let default = factory_multisample_record(table.record_size);
    let n = table.len();
    let mut out: Vec<Multisample> = Vec::new();
    let mut index: usize = 0;
    while index < n
        invariant
            table.wf(),
            n == table.spec_len(),
            index <= n,
            default@ == factory_multisample(table.record_size as nat),
            out@.len() == edited_records(*table, index as int).len(),
            forall|k: int|
                0 <= k < out@.len() ==> {
                    let i = edited_records(*table, index as int)[k];
                    let r = table.spec_record(i);
                    &&& (#[trigger] out@[k]).index == i
                    &&& out@[k].edited
                    &&& out@[k].name@ == field_text(r.subrange(0, head_len(r)))
                },
        decreases n - index,
    {
        let record = table.record(index).unwrap();
        let ghost before = out@;
        let ghost edited = edited_records(*table, index as int);
        if !bytes_equal(record, default.as_slice()) {
            let head = if record.len() < 16 {
                record.len()
            } else {
                16
            };
            out.push(
                Multisample {
                    index,
                    name: ascii_trim(vstd::slice::slice_subrange(record, 0, head)),
                    edited: true,
                },
            );
            assert(edited_records(*table, index + 1) == edited.push(index as int));
            assert forall|k: int| 0 <= k < out@.len() implies {
                let i = edited_records(*table, index + 1)[k];
                let r = table.spec_record(i);
                &&& (#[trigger] out@[k]).index == i
                &&& out@[k].edited
                &&& out@[k].name@ == field_text(r.subrange(0, head_len(r)))
            } by {
                if k < before.len() {
                    assert(out@[k] == before[k]);
                    assert(edited.push(index as int)[k] == edited[k]);
                }
            }
        } else {
            assert(edited_records(*table, index + 1) == edited);
        }
        index = index + 1;
    }
    out
}

} // verus!

verus! {

/// The bytes of the first area tagged `tag`: none when the file has no such area, an error when
/// the area runs past the end of the file.
pub open spec fn area_body_of(s: Seq<u8>, areas: Seq<Area>, tag: Seq<u8>) -> Result<Option<Seq<u8>>> {
    match first_area(areas, tag) {
        None => Ok(None),
        Some(i) => {
            let a = areas[i];
            if fits(a, s.len()) {
                Ok(Some(s.subrange(a.offset as int, a.offset + a.size)))
            } else {
                Err(
                    Error::AreaBeyondFile {
                        tag: a.tag,
                        start: a.offset as usize,
                        end: (a.offset + a.size) as usize,
                        file_len: s.len() as usize,
                    },
                )
            }
        },
    }
}

/// The bytes of the first area tagged `tag` read as a record table: as [`area_body_of`], and an
/// error when the body is not a record table.
pub open spec fn table_body_of(s: Seq<u8>, areas: Seq<Area>, tag: Seq<u8>) -> Result<Option<Seq<u8>>> {
    match area_body_of(s, areas, tag) {
        Ok(Some(b)) => match table_error(areas[first_area(areas, tag)->Some_0].tag, b) {
            Some(e) => Err(e),
            None => Ok(Some(b)),
        },
        other => other,
    }
}

/// Record `i` of a record table's body `b`.
pub open spec fn record_of_body(b: Seq<u8>, i: int) -> Seq<u8> {
    let size = le32(b, 4) as int;
    b.subrange(data_start(b) + i * size, data_start(b) + (i + 1) * size)
}

/// The listed slots among the first `n` records of a slot table's body.
pub open spec fn listed_in(b: Seq<u8>, n: int) -> Seq<int>
    decreases n,
{
    if n <= 0 {
        Seq::empty()
    } else {
        let rest = listed_in(b, n - 1);
        if le32(b, 4) >= SLOT_LEN && slot_listed(record_of_body(b, n - 1)) {
            rest.push(n - 1)
        } else {
            rest
        }
    }
}

/// The records among the first `n` of a multisample table's body that differ from the factory
/// default.
pub open spec fn edited_in(b: Seq<u8>, n: int) -> Seq<int>
    decreases n,
{
    if n <= 0 {
        Seq::empty()
    } else {
        let rest = edited_in(b, n - 1);
        if record_of_body(b, n - 1) != factory_multisample(le32(b, 4) as nat) {
            rest.push(n - 1)
        } else {
            rest
        }
    }
}

/// Whether `slots` are the used slots of an `SMPa` body, if the file has one.
pub open spec fn slots_read(slots: Seq<SampleSlot>, smpa: Option<Seq<u8>>) -> bool {
    match smpa {
        None => slots.len() == 0,
        Some(b) => {
            let listed = listed_in(b, whole_records(b) as int);
            &&& slots.len() == listed.len()
            &&& forall|k: int| 0 <= k < slots.len() ==> is_slot(#[trigger] slots[k], record_of_body(b, listed[k]), listed[k])
        },
    }
}

/// Whether `data` is the directory walk of a `USDa` body, if the file has one: its body after
/// the 16-byte header, to the terminator.
pub open spec fn data_read(data: Seq<SampleData>, usda: Option<Seq<u8>>) -> bool {
    match usda {
        None => data.len() == 0,
        Some(b) => if b.len() < HEADER_LEN {
            data.len() == 0
        } else {
            let body = b.subrange(HEADER_LEN as int, b.len() as int);
            &&& data.len() == first_stop(body, 0)
            &&& forall|e: int| 0 <= e < data.len() ==> is_data(#[trigger] data[e], body, e)
        },
    }
}

/// Whether `ms` are the edited multisamples of an `MLSa` body, if the file has one.
pub open spec fn multisamples_read(ms: Seq<Multisample>, mlsa: Option<Seq<u8>>) -> bool {
    match mlsa {
        None => ms.len() == 0,
        Some(b) => {
            let edited = edited_in(b, whole_records(b) as int);
            &&& ms.len() == edited.len()
            &&& forall|k: int|
                0 <= k < ms.len() ==> {
                    let r = record_of_body(b, edited[k]);
                    &&& (#[trigger] ms[k]).index == edited[k]
                    &&& ms[k].edited
                    &&& ms[k].name@ == field_text(r.subrange(0, head_len(r)))
                }
        },
    }
}

proof fn lemma_listed_in(t: RecordTable, a: Area, b: Seq<u8>, n: int)
    requires
        t.reads(a, b),
    ensures
        listed_slots(t, n) == listed_in(b, n),
    decreases n,
{
    if n > 0 {
        lemma_listed_in(t, a, b, n - 1);
        assert(t.spec_record(n - 1) == record_of_body(b, n - 1));
    }
}

proof fn lemma_edited_in(t: RecordTable, a: Area, b: Seq<u8>, n: int)
    requires
        t.reads(a, b),
    ensures
        edited_records(t, n) == edited_in(b, n),
    decreases n,
{
    if n > 0 {
        lemma_edited_in(t, a, b, n - 1);
        assert(t.spec_record(n - 1) == record_of_body(b, n - 1));
    }
}

/// Read whatever user sampling a file carries: the used slots of `SMPa`, the waveform sections
/// `USDa`'s directory lists, and the multisamples of `MLSa` that differ from the factory default.
/// A file with none of these areas yields an empty bank; an area that runs past the file, or a
/// slot or multisample area that is not a record table, is an error (looked at in that order).
pub fn read(raw: &Raw, svd: &Svd) -> (r: Result<SampleBank>)
    ensures
        match table_body_of(raw@, svd.areas@, seq![0x53u8, 0x4d, 0x50, 0x61]) {
            Err(e) => r == Err::<SampleBank, Error>(e),
            Ok(smpa) => match area_body_of(raw@, svd.areas@, seq![0x55u8, 0x53, 0x44, 0x61]) {
                Err(e) => r == Err::<SampleBank, Error>(e),
                Ok(usda) => match table_body_of(raw@, svd.areas@, seq![0x4du8, 0x4c, 0x53, 0x61]) {
                    Err(e) => r == Err::<SampleBank, Error>(e),
                    Ok(mlsa) => r matches Ok(bank) && slots_read(bank.slots@, smpa) && data_read(bank.data@, usda)
                        && multisamples_read(bank.multisamples@, mlsa),
                },
            },
        },
        r matches Ok(bank) ==> (first_area(svd.areas@, seq![0x53u8, 0x4d, 0x50, 0x61]) is None
            ==> bank.slots@.len() == 0) && (first_area(svd.areas@, seq![0x55u8, 0x53, 0x44, 0x61])
            is None ==> bank.data@.len() == 0) && (first_area(
            svd.areas@,
            seq![0x4du8, 0x4c, 0x53, 0x61],
        ) is None ==> bank.multisamples@.len() == 0),
{
    let smpa = [0x53u8, 0x4d, 0x50, 0x61];
    let usda = [0x55u8, 0x53, 0x44, 0x61];
    let mlsa = [0x4du8, 0x4c, 0x53, 0x61];
    assert(smpa@ =~= seq![0x53u8, 0x4d, 0x50, 0x61]);
    assert(usda@ =~= seq![0x55u8, 0x53, 0x44, 0x61]);
    assert(mlsa@ =~= seq![0x4du8, 0x4c, 0x53, 0x61]);
    let slots = match RecordTable::from_svd(raw, svd, &smpa)? {
        Some(table) => {
            let ghost i = first_area(svd.areas@, smpa@)->Some_0;
            let ghost b = raw@.subrange(svd.areas@[i].offset as int, svd.areas@[i].offset + svd.areas@[i].size);
            proof {
                lemma_listed_in(table, svd.areas@[i], b, table.spec_len() as int);
            }
            let v = read_slot_table(&table);
            assert forall|k: int| 0 <= k < v@.len() implies is_slot(#[trigger] v@[k], record_of_body(b, listed_in(b, whole_records(b) as int)[k]), listed_in(b, whole_records(b) as int)[k]) by {
                assert(table.spec_record(listed_in(b, whole_records(b) as int)[k]) == record_of_body(b, listed_in(b, whole_records(b) as int)[k]));
            }
            v
        },
        None => Vec::new(),
    };
    let data = match svd.area(&usda) {
        Some(area) => {
            let bytes = svd.area_bytes(raw, area)?;
            if bytes.len() < HEADER_LEN {
                Vec::new()
            } else {
                read_directory(vstd::slice::slice_subrange(bytes, HEADER_LEN, bytes.len()))
            }
        },
        None => Vec::new(),
    };
    let multisamples = match RecordTable::from_svd(raw, svd, &mlsa)? {
        Some(table) => {
            let ghost i = first_area(svd.areas@, mlsa@)->Some_0;
            let ghost b = raw@.subrange(svd.areas@[i].offset as int, svd.areas@[i].offset + svd.areas@[i].size);
            proof {
                lemma_edited_in(table, svd.areas@[i], b, table.spec_len() as int);
            }
            let v = read_multisample_table(&table);
            assert forall|k: int| 0 <= k < v@.len() implies table.spec_record(#[trigger] edited_in(b, whole_records(b) as int)[k]) == record_of_body(b, edited_in(b, whole_records(b) as int)[k]) by {}
            v
        },
        None => Vec::new(),
    };
    Ok(SampleBank { slots, data, multisamples })
}

} // verus!
