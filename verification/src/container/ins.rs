//! `INSa` — the 88 key instruments of a drum kit, and the user samples they play.
//!
//! An `INSa` record is the payload of the `RHYa` kit at the same index: 88 sub-records of 216
//! bytes, one per key. Each holds four wave blocks at stride 28 from `+0x1c`; a block's group
//! byte (`+0x01`) says what its two wave numbers (`+0x04`, `+0x06`) mean, and group `2` means
//! user sample slots — the same value a `PATa` partial uses.

use std::collections::BTreeMap;

use vstd::prelude::*;

use crate::bytes::{le16, read_u16, write_u16};
use crate::container::slots::{add_new, push_new};

verus! {

broadcast use vstd::laws_cmp::group_laws_cmp;

/// One key's instrument within an `INSa` record.
pub const INSTRUMENT_LEN: usize = 216;
/// Where an instrument's four wave blocks start.
pub const WAVE_BASE: usize = 0x1c;
/// How far apart the wave blocks sit.
pub const WAVE_STRIDE: usize = 28;
/// "These numbers are user sample slots."
pub const GROUP_SAMPLE: u8 = 2;

/// The offset of wave number `f` (0..8: block `f / 2`, left or right) of instrument `i`.
pub open spec fn ins_number_at(i: int, f: int) -> int {
    INSTRUMENT_LEN * i + WAVE_BASE + WAVE_STRIDE * (f / 2) + 4 + 2 * (f % 2)
}

/// The offset of the group byte governing wave number `f` of instrument `i`.
pub open spec fn ins_group_at(i: int, f: int) -> int {
    INSTRUMENT_LEN * i + WAVE_BASE + WAVE_STRIDE * (f / 2) + 1
}

/// How many whole instruments the record holds.
pub open spec fn instruments(r: Seq<u8>) -> int {
    r.len() as int / INSTRUMENT_LEN as int
}

/// Whether wave number `f` of instrument `i` names a user sample.
pub open spec fn ins_plays(r: Seq<u8>, i: int, f: int) -> bool {
    r[ins_group_at(i, f)] == GROUP_SAMPLE && le16(r, ins_number_at(i, f)) != 0
}

/// The samples named by every wave number of instruments `0..i`, then numbers `0..f` of
/// instrument `i`, deduplicated in that order.
pub open spec fn ins_fold(r: Seq<u8>, i: nat, f: nat) -> Seq<u16>
    decreases i, f,
{
    if f == 0 {
        if i == 0 {
            Seq::empty()
        } else {
            ins_fold(r, (i - 1) as nat, 8)
        }
    } else {
        let prev = ins_fold(r, i, (f - 1) as nat);
        if f <= 8 && ins_plays(r, i as int, f - 1) {
            push_new(prev, le16(r, ins_number_at(i as int, f - 1)))
        } else {
            prev
        }
    }
}

/// The user sample slots a drum kit's instruments play.
pub open spec fn ins_slots(r: Seq<u8>) -> Seq<u16> {
    ins_fold(r, instruments(r) as nat, 0)
}

/// The user sample slots a drum kit's instruments play, 1-based, deduplicated in key order.
pub fn sample_slots(record: &[u8]) -> (slots: Vec<u16>)
    ensures
        slots@ == ins_slots(record@),
{
    let total = record.len();
    let n = total / INSTRUMENT_LEN;
    let mut slots: Vec<u16> = Vec::new();
    let mut i: usize = 0;
    while i < n
        invariant
            total == record@.len(),
            n == instruments(record@),
            i <= n,
            slots@ == ins_fold(record@, i as nat, 0),
        decreases n - i,
    {
        let base = INSTRUMENT_LEN * i;
        let mut f: usize = 0;
        while f < 8
            invariant
                total == record@.len(),
                n == instruments(record@),
                i < n,
                base == INSTRUMENT_LEN * i,
                f <= 8,
                slots@ == ins_fold(record@, i as nat, f as nat),
            decreases 8 - f,
        {
            let group = base + WAVE_BASE + WAVE_STRIDE * (f / 2) + 1;
            let at = base + WAVE_BASE + WAVE_STRIDE * (f / 2) + 4 + 2 * (f % 2);
            let number = read_u16(record, at).unwrap();
            if record[group] == GROUP_SAMPLE && number != 0 {
                add_new(&mut slots, number);
            }
            f = f + 1;
        }
        i = i + 1;
    }
    slots
}

/// Whether wave number `f` of instrument `i` is rewritten by `remap`.
pub open spec fn ins_remapped(r: Seq<u8>, m: Map<u16, u16>, i: int, f: int) -> bool {
    &&& 0 <= i < instruments(r)
    &&& 0 <= f < 8
    &&& r[ins_group_at(i, f)] == GROUP_SAMPLE
    &&& m.contains_key(le16(r, ins_number_at(i, f)))
}

/// Whether byte `k` belongs to a wave number that `remap` rewrites.
pub open spec fn in_ins_remapped(r: Seq<u8>, m: Map<u16, u16>, k: int) -> bool {
    exists|i: int, f: int|
        ins_remapped(r, m, i, f) && ins_number_at(i, f) <= k < ins_number_at(i, f) + 2
}

/// Whether byte `k` belongs to a wave number of a field that comes before `(i, f)`.
spec fn written_before(r: Seq<u8>, m: Map<u16, u16>, i: int, f: int, k: int) -> bool {
    exists|i2: int, f2: int|
        (i2 < i || (i2 == i && f2 < f)) && ins_remapped(r, m, i2, f2) && ins_number_at(i2, f2)
            <= k < ins_number_at(i2, f2) + 2
}

proof fn lemma_fields_apart(i: int, f: int, i2: int, f2: int)
    requires
        0 <= f < 8,
        0 <= f2 < 8,
        i2 < i || (i2 == i && f2 < f),
    ensures
        !(ins_number_at(i2, f2) <= ins_number_at(i, f) < ins_number_at(i2, f2) + 2),
        !(ins_number_at(i2, f2) <= ins_number_at(i, f) + 1 < ins_number_at(i2, f2) + 2),
        !(ins_number_at(i2, f2) <= ins_group_at(i, f) < ins_number_at(i2, f2) + 2),
{
}

/// Rewrite a drum kit's user-sample references through `remap` (old slot -> new slot).
pub fn remap_sample_slots(record: &mut [u8], remap: &BTreeMap<u16, u16>)
    ensures
        final(record)@.len() == old(record)@.len(),
        forall|i: int, f: int|
            ins_remapped(old(record)@, remap@, i, f) ==> le16(
                final(record)@,
                ins_number_at(i, f),
            ) == remap@[le16(old(record)@, ins_number_at(i, f))],
        forall|k: int|
            0 <= k < old(record)@.len() && !in_ins_remapped(old(record)@, remap@, k)
                ==> final(record)@[k] == old(record)@[k],
{
    let ghost r0 = record@;
    let total = record.len();
    let n = total / INSTRUMENT_LEN;
    let mut i: usize = 0;
    while i < n
        invariant
            total == record@.len() == r0.len(),
            n == instruments(r0),
            i <= n,
            forall|i2: int, f2: int|
                i2 < i && ins_remapped(r0, remap@, i2, f2) ==> le16(record@, ins_number_at(i2, f2))
                    == remap@[le16(r0, ins_number_at(i2, f2))],
            forall|k: int|
                0 <= k < r0.len() && !written_before(r0, remap@, i as int, 0, k) ==> record@[k]
                    == r0[k],
        decreases n - i,
    {
        let base = INSTRUMENT_LEN * i;
        let mut f: usize = 0;
        while f < 8
            invariant
                total == record@.len() == r0.len(),
                n == instruments(r0),
                i < n,
                base == INSTRUMENT_LEN * i,
                f <= 8,
                forall|i2: int, f2: int|
                    (i2 < i || (i2 == i && f2 < f)) && ins_remapped(r0, remap@, i2, f2) ==> le16(
                        record@,
                        ins_number_at(i2, f2),
                    ) == remap@[le16(r0, ins_number_at(i2, f2))],
                forall|k: int|
                    0 <= k < r0.len() && !written_before(r0, remap@, i as int, f as int, k)
                        ==> record@[k] == r0[k],
            decreases 8 - f,
        {
            let group = base + WAVE_BASE + WAVE_STRIDE * (f / 2) + 1;
            let at = base + WAVE_BASE + WAVE_STRIDE * (f / 2) + 4 + 2 * (f % 2);
            proof {
                assert forall|i2: int, f2: int|
                    (i2 < i || (i2 == i && f2 < f)) && 0 <= f2 < 8 implies !(#[trigger] ins_number_at(i2, f2)
                        <= at < ins_number_at(i2, f2) + 2) && !(ins_number_at(i2, f2) <= at + 1
                        < ins_number_at(i2, f2) + 2) && !(ins_number_at(i2, f2) <= group
                        < ins_number_at(i2, f2) + 2) by {
                    lemma_fields_apart(i as int, f as int, i2, f2);
                }
                assert(!written_before(r0, remap@, i as int, f as int, at as int));
                assert(!written_before(r0, remap@, i as int, f as int, at + 1));
                assert(!written_before(r0, remap@, i as int, f as int, group as int));
            }
            let number = read_u16(record, at).unwrap();
            if record[group] == GROUP_SAMPLE {
                match remap.get(&number) {
                    Some(new) => {
                        write_u16(record, at, *new);
                        assert(ins_remapped(r0, remap@, i as int, f as int));
                    },
                    None => {},
                }
            }
            f = f + 1;
        }
        i = i + 1;
    }
    assert forall|k: int|
        0 <= k < r0.len() && !in_ins_remapped(r0, remap@, k) implies record@[k] == r0[k] by {
        if written_before(r0, remap@, n as int, 0, k) {
            let (i2, f2) = choose|i2: int, f2: int|
                (i2 < n || (i2 == n && f2 < 0)) && ins_remapped(r0, remap@, i2, f2)
                    && ins_number_at(i2, f2) <= k < ins_number_at(i2, f2) + 2;
            assert(in_ins_remapped(r0, remap@, k));
        }
    }
}

} // verus!
