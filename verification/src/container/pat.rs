//! The `PATa` (patch/tone) area: a header plus fixed-stride tone records.
//!
//! Each record's first 16 bytes are the tone name; byte `+0x10` is the tone category. A ZEN-Core
//! tone has four partials, 124 bytes apart; each selects a wave group (`+0xdf`) and a wave number
//! (`+0xe2`), and group `2` means the number is a user sample slot.
//!
//! Records start at the declared `data_start`, not at a fixed 16: an SVZ stores a CRC-32 per
//! record between the header and the records.

use std::collections::BTreeMap;

use vstd::prelude::*;

use crate::bytes::{le16, le32, read_u16, read_u32, write_u16};
use crate::container::records::HEADER_LEN;
use crate::container::slots::{add_new, push_new};
use crate::container::svd::{first_area, fits};
use crate::container::{Raw, Svd};
use crate::text::{ascii_trim, field_text};
use crate::{Error, Result};

verus! {

broadcast use vstd::laws_cmp::group_laws_cmp;

/// A ZEN-Core tone's partials sit this far apart within its record.
pub const PARTIAL_STRIDE: usize = 124;
/// How many partials a tone has.
pub const PARTIAL_COUNT: usize = 4;
/// Where a partial's wave group byte sits: 0 = internal ROM wave, 2 = user sample.
pub const WAVE_GROUP_OFFSET: usize = 0xdf;
/// Where a partial's two-byte wave number sits.
pub const WAVE_NUMBER_OFFSET: usize = 0xe2;
/// The wave-group value meaning "this partial plays a user sample".
pub const WAVE_GROUP_SAMPLE: u8 = 2;
/// Where the tone category byte sits.
pub const CATEGORY_OFFSET: usize = 0x10;
/// Length of the name field.
pub const NAME_LEN: usize = 16;

/// The offset of partial `p`'s wave number.
pub open spec fn number_at(p: int) -> int {
    WAVE_NUMBER_OFFSET + p * PARTIAL_STRIDE
}

/// The offset of partial `p`'s wave group.
pub open spec fn group_at(p: int) -> int {
    WAVE_GROUP_OFFSET + p * PARTIAL_STRIDE
}

/// Whether the record is long enough to hold partial `p`.
pub open spec fn partial_present(r: Seq<u8>, p: int) -> bool {
    number_at(p) + 2 <= r.len()
}

/// Whether partial `p` plays a user sample (a nonzero number in wave group 2).
pub open spec fn plays_sample(r: Seq<u8>, p: int) -> bool {
    partial_present(r, p) && r[group_at(p)] == WAVE_GROUP_SAMPLE && le16(r, number_at(p)) != 0
}

/// The user sample slots of the first `p` partials, deduplicated in partial order.
pub open spec fn pat_slots(r: Seq<u8>, p: nat) -> Seq<u16>
    decreases p,
{
    if p == 0 {
        Seq::empty()
    } else {
        let prev = pat_slots(r, (p - 1) as nat);
        if plays_sample(r, p - 1) {
            push_new(prev, le16(r, number_at(p - 1)))
        } else {
            prev
        }
    }
}

/// The user sample slots a `PATa` tone record plays, 1-based, in partial order.
pub fn sample_slots(record: &[u8]) -> (slots: Vec<u16>)
    ensures
        slots@ == pat_slots(record@, PARTIAL_COUNT as nat),
{
    let mut slots: Vec<u16> = Vec::new();
    let mut p: usize = 0;
    while p < PARTIAL_COUNT
        invariant
            p <= PARTIAL_COUNT,
            slots@ == pat_slots(record@, p as nat),
        decreases PARTIAL_COUNT - p,
    {
        let base = p * PARTIAL_STRIDE;
        if let Some(number) = read_u16(record, WAVE_NUMBER_OFFSET + base) {
            if record[WAVE_GROUP_OFFSET + base] == WAVE_GROUP_SAMPLE && number != 0 {
                add_new(&mut slots, number);
            }
        }
        p = p + 1;
    }
    slots
}

/// Whether partial `p`'s wave number is rewritten by `remap`.
pub open spec fn remapped_partial(r: Seq<u8>, m: Map<u16, u16>, p: int) -> bool {
    &&& 0 <= p < PARTIAL_COUNT
    &&& partial_present(r, p)
    &&& r[group_at(p)] == WAVE_GROUP_SAMPLE
    &&& m.contains_key(le16(r, number_at(p)))
}

/// Whether byte `i` belongs to a wave number that `remap` rewrites.
pub open spec fn in_remapped_partial(r: Seq<u8>, m: Map<u16, u16>, i: int) -> bool {
    exists|p: int| remapped_partial(r, m, p) && number_at(p) <= i < number_at(p) + 2
}

/// Rewrite a tone record's user-sample references through `remap` (old slot -> new slot).
pub fn remap_sample_slots(record: &mut [u8], remap: &BTreeMap<u16, u16>)
    ensures
        final(record)@.len() == old(record)@.len(),
        forall|p: int|
            remapped_partial(old(record)@, remap@, p) ==> le16(final(record)@, number_at(p))
                == remap@[le16(old(record)@, number_at(p))],
        forall|i: int|
            0 <= i < old(record)@.len() && !in_remapped_partial(old(record)@, remap@, i)
                ==> final(record)@[i] == old(record)@[i],
{
    let ghost r0 = record@;
    let total = record.len();
    let mut p: usize = 0;
    while p < PARTIAL_COUNT
        invariant
            p <= PARTIAL_COUNT,
            total == record@.len() == r0.len(),
            forall|q: int|
                0 <= q < p && remapped_partial(r0, remap@, q) ==> le16(record@, number_at(q))
                    == remap@[le16(r0, number_at(q))],
            forall|i: int|
                0 <= i < r0.len() && !(exists|q: int|
                    0 <= q < p && remapped_partial(r0, remap@, q) && number_at(q) <= i
                        < number_at(q) + 2) ==> record@[i] == r0[i],
        decreases PARTIAL_COUNT - p,
    {
        let base = p * PARTIAL_STRIDE;
        let at = WAVE_NUMBER_OFFSET + base;
        if let Some(number) = read_u16(record, at) {
            proof {
                // Neither this partial's group byte nor its number has been written yet.
                assert(!(exists|q: int|
                    0 <= q < p && remapped_partial(r0, remap@, q) && number_at(q) <= group_at(
                        p as int,
                    ) < number_at(q) + 2));
                assert(!(exists|q: int|
                    0 <= q < p && remapped_partial(r0, remap@, q) && number_at(q) <= at < number_at(q) + 2));
                assert(!(exists|q: int|
                    0 <= q < p && remapped_partial(r0, remap@, q) && number_at(q) <= at + 1 < number_at(q) + 2));
            }
            if record[WAVE_GROUP_OFFSET + base] == WAVE_GROUP_SAMPLE {
                match remap.get(&number) {
                    Some(new) => {
                        let ghost before = record@;
                        write_u16(record, at, *new);
                        assert(remapped_partial(r0, remap@, p as int));
                    },
                    None => {},
                }
            }
        }
        p = p + 1;
    }
    assert forall|i: int|
        0 <= i < r0.len() && !in_remapped_partial(r0, remap@, i) implies record@[i] == r0[i] by {
        if exists|q: int|
            0 <= q < PARTIAL_COUNT && remapped_partial(r0, remap@, q) && number_at(q) <= i
                < number_at(q) + 2 {
            let q = choose|q: int|
                0 <= q < PARTIAL_COUNT && remapped_partial(r0, remap@, q) && number_at(q) <= i
                    < number_at(q) + 2;
            assert(in_remapped_partial(r0, remap@, i));
        }
    }
}

/// One tone stored in a `PATa` area.
#[derive(Debug, Clone, PartialEq, Eq)]
pub struct Tone {
    pub name: String,
    /// Tone category byte (e.g. `0x23` = brass).
    pub category: u8,
    /// User sample slots this tone plays, 1-based as stored.
    pub samples: Vec<u16>,
}

/// Whether `t` is the tone decoded from record bytes `r`.
///
/// A record too short to carry a category (16 bytes or less) reads as its name bytes with
/// category `0`.
pub open spec fn is_tone(t: Tone, r: Seq<u8>) -> bool {
    &&& r.len() > CATEGORY_OFFSET ==> t.name@ == field_text(r.subrange(0, NAME_LEN as int))
        && t.category == r[CATEGORY_OFFSET as int]
    &&& r.len() <= CATEGORY_OFFSET ==> t.name@ == field_text(r) && t.category == 0
    &&& t.samples@ == pat_slots(r, PARTIAL_COUNT as nat)
}

/// The `PATa` area: its tone list.
pub struct PatArea {
    pub tones: Vec<Tone>,
}

/// Where the records of a `PATa` body start: the declared start when it lies between the
/// header and the end of the area, else right after the header.
pub open spec fn pat_data_start(a: Seq<u8>) -> int {
    if HEADER_LEN <= le32(a, 8) <= a.len() {
        le32(a, 8) as int
    } else {
        HEADER_LEN as int
    }
}

/// How many of the declared records fit whole in the area (a truncated area keeps what fits).
pub open spec fn pat_tone_count(a: Seq<u8>) -> int {
    let start = pat_data_start(a);
    let size = le32(a, 4) as int;
    let fit = if start <= a.len() {
        (a.len() - start) / size
    } else {
        0
    };
    if (le32(a, 0) as int) < fit {
        le32(a, 0) as int
    } else {
        fit
    }
}

/// The bytes of record `i` of a `PATa` body.
pub open spec fn pat_record(a: Seq<u8>, i: int) -> Seq<u8> {
    let start = pat_data_start(a) + i * le32(a, 4);
    a.subrange(start, start + le32(a, 4))
}

/// Why a `PATa` body cannot be read, or `None`.
pub open spec fn pat_error(a: Seq<u8>) -> Option<Error> {
    let tag = [0x50u8, 0x41, 0x54, 0x61];
    if a.len() < 4 {
        Some(Error::AreaTruncated { tag, at: 0 })
    } else if a.len() < 8 {
        Some(Error::AreaTruncated { tag, at: 4 })
    } else if le32(a, 4) == 0 {
        Some(Error::ZeroRecordSize { tag })
    } else if a.len() < 12 {
        Some(Error::AreaTruncated { tag, at: 8 })
    } else {
        None
    }
}

impl PatArea {
    /// Parse the tone list from a `PATa` area's bytes.
    pub fn parse(area: &[u8]) -> (r: Result<Self>)
        ensures
            r is Ok <==> pat_error(area@) is None,
            r matches Err(e) ==> pat_error(area@) == Some(e),
            r matches Ok(pat) ==> pat.tones@.len() == pat_tone_count(area@) && forall|i: int|
                0 <= i < pat.tones@.len() ==> is_tone(
                    #[trigger] pat.tones@[i],
                    pat_record(area@, i),
                ),
    {
        let tag = [0x50u8, 0x41, 0x54, 0x61];
        let total = area.len();
        let count = match read_u32(area, 0) {
            Some(v) => v as usize,
            None => {
                return Err(Error::AreaTruncated { tag, at: 0 });
            },
        };
        let record_size = match read_u32(area, 4) {
            Some(v) => v as usize,
            None => {
                return Err(Error::AreaTruncated { tag, at: 4 });
            },
        };
        if record_size == 0 {
            return Err(Error::ZeroRecordSize { tag });
        }
        let declared = match read_u32(area, 8) {
            Some(v) => v as usize,
            None => {
                return Err(Error::AreaTruncated { tag, at: 8 });
            },
        };
        let data_start = if HEADER_LEN <= declared && declared <= total {
            declared
        } else {
            HEADER_LEN
        };
        let fit = if data_start <= total {
            (total - data_start) / record_size
        } else {
            0
        };
        let n = if count < fit {
            count
        } else {
            fit
        };
        let mut tones: Vec<Tone> = Vec::new();
        let mut i: usize = 0;
        while i < n
            invariant
                total == area@.len(),
                data_start == pat_data_start(area@),
                record_size == le32(area@, 4),
                record_size > 0,
                n == pat_tone_count(area@),
                n > 0 ==> data_start <= total,
                n > 0 ==> n <= (total - data_start) / record_size as int,
                i <= n,
                tones@.len() == i,
                forall|j: int|
                    0 <= j < i ==> is_tone(#[trigger] tones@[j], pat_record(area@, j)),
            decreases n - i,
        {
            proof {
                lemma_slot_fits(total as int, data_start as int, record_size as int, n as int, i as int);
            }
            let start = data_start + i * record_size;
            let record = vstd::slice::slice_subrange(area, start, start + record_size);
            if record.len() <= CATEGORY_OFFSET {
                // A record too short to carry the name and category of a tone: read as blank.
                tones.push(pad_tone(record));
            } else {
                let name_field = vstd::slice::slice_subrange(record, 0, NAME_LEN);
                tones.push(
                    Tone {
                        name: ascii_trim(name_field),
                        category: record[CATEGORY_OFFSET],
                        samples: sample_slots(record),
                    },
                );
            }
            i = i + 1;
        }
        Ok(PatArea { tones })
    }

    /// Locate and parse the `PATa` area of a file.
    pub fn from_svd(raw: &Raw, svd: &Svd) -> (r: Result<Self>)
        ensures
            first_area(svd.areas@, seq![0x50u8, 0x41, 0x54, 0x61]) is None ==> r
                == Err::<Self, Error>(Error::MissingArea { tag: [0x50u8, 0x41, 0x54, 0x61] }),
            first_area(svd.areas@, seq![0x50u8, 0x41, 0x54, 0x61]) matches Some(k) ==> {
                let area = svd.areas@[k];
                &&& !fits(area, raw@.len()) ==> r is Err
                &&& fits(area, raw@.len()) ==> {
                    let s = raw@.subrange(area.offset as int, area.offset + area.size);
                    &&& (r is Ok <==> pat_error(s) is None)
                    &&& r matches Ok(pat) ==> pat.tones@.len() == pat_tone_count(s) && forall|i: int|
                        0 <= i < pat.tones@.len() ==> is_tone(#[trigger] pat.tones@[i], pat_record(s, i))
                }
            },
    {
        let tag = [0x50u8, 0x41, 0x54, 0x61];
        assert(tag@ =~= seq![0x50u8, 0x41, 0x54, 0x61]);
        let area = match svd.area(&tag) {
            Some(a) => a,
            None => {
                return Err(Error::MissingArea { tag });
            },
        };
        let bytes = svd.area_bytes(raw, area)?;
        Self::parse(bytes)
    }

    /// All tones, in storage order.
    pub fn tones(&self) -> (t: &[Tone])
        ensures
            t@ == self.tones@,
    {
        self.tones.as_slice()
    }

    /// The tone at `index`, if present.
    pub fn get(&self, index: usize) -> (t: Option<&Tone>)
        ensures
            index < self.tones@.len() ==> (t matches Some(x) && *x == self.tones@[index as int]),
            index >= self.tones@.len() ==> t is None,
    {
        if index < self.tones.len() {
            Some(&self.tones[index])
        } else {
            None
        }
    }
}

/// The tone a record holds when it is too short to carry a category: its name is read from the
/// bytes it has.
fn pad_tone(record: &[u8]) -> (t: Tone)
    requires
        record@.len() <= CATEGORY_OFFSET,
    ensures
        is_tone(t, record@),
{
    Tone { name: ascii_trim(record), category: 0, samples: sample_slots(record) }
}

proof fn lemma_slot_fits(total: int, start: int, size: int, n: int, i: int)
    requires
        size > 0,
        0 <= i < n,
        start <= total,
        n <= (total - start) / size,
    ensures
        start + (i + 1) * size <= total,
        start + i * size + size == start + (i + 1) * size,
        0 <= i * size,
{
    assert(start + (i + 1) * size <= total) by (nonlinear_arith)
        requires
            size > 0,
            0 <= i < n,
            start <= total,
            n <= (total - start) / size,
    ;
    assert(i * size + size == (i + 1) * size) by (nonlinear_arith);
    assert(0 <= i * size) by (nonlinear_arith)
        requires
            0 <= i,
            size > 0,
    ;
}

} // verus!
