//! User multisamples — `MLSa` in a backup, `MSPa` in an SVZ export.
//!
//! A multisample maps each of the 128 MIDI keys to a user sample. The record is a 16-byte name,
//! then 128 entries of 8 bytes, one per key: the 1-based user sample slot (`0` = the key plays
//! nothing), the level, the pan (`128` = centre), and a field that is `0` everywhere.

use std::collections::BTreeMap;

use vstd::prelude::*;

use crate::bytes::{le16, read_u16, write_u16};
use crate::container::slots::{add_new, push_new};

verus! {

broadcast use vstd::laws_cmp::group_laws_cmp;

/// A multisample record's name field, then one entry per MIDI key.
pub const NAME_LEN: usize = 16;
/// MIDI keys in a multisample.
pub const KEYS: usize = 128;
/// Bytes per key entry.
pub const ENTRY_LEN: usize = 8;

/// What one key of a multisample plays.
#[derive(Debug, Clone, Copy, PartialEq, Eq)]
pub struct KeyMap {
    /// MIDI key, 0..128.
    pub key: u8,
    /// 1-based user sample slot. Never zero — silent keys are omitted.
    pub slot: u16,
    pub level: u16,
    /// 128 is centre.
    pub pan: u16,
}

/// The offset of key `k`'s entry.
pub open spec fn entry_at(k: int) -> int {
    NAME_LEN + ENTRY_LEN * k
}

/// Whether key `k`'s whole entry is in the record and names a sample.
pub open spec fn key_sounds(r: Seq<u8>, k: int) -> bool {
    entry_at(k) + ENTRY_LEN <= r.len() && le16(r, entry_at(k)) != 0
}

/// The keys `0..k` that play something, in key order.
pub open spec fn key_maps(r: Seq<u8>, k: nat) -> Seq<KeyMap>
    decreases k,
{
    if k == 0 {
        Seq::empty()
    } else {
        let prev = key_maps(r, (k - 1) as nat);
        let at = entry_at(k - 1);
        if key_sounds(r, k - 1) {
            prev.push(
                KeyMap {
                    key: (k - 1) as u8,
                    slot: le16(r, at),
                    level: le16(r, at + 2),
                    pan: le16(r, at + 4),
                },
            )
        } else {
            prev
        }
    }
}

/// The samples of keys `0..k`, deduplicated in key order.
pub open spec fn msmp_slots(r: Seq<u8>, k: nat) -> Seq<u16>
    decreases k,
{
    if k == 0 {
        Seq::empty()
    } else {
        let prev = msmp_slots(r, (k - 1) as nat);
        if key_sounds(r, k - 1) {
            push_new(prev, le16(r, entry_at(k - 1)))
        } else {
            prev
        }
    }
}

/// Every key of a multisample that plays something, in key order.
pub fn key_map(record: &[u8]) -> (out: Vec<KeyMap>)
    ensures
        out@ == key_maps(record@, KEYS as nat),
{
    let total = record.len();
    let mut out: Vec<KeyMap> = Vec::new();
    let mut key: usize = 0;
    while key < KEYS
        invariant
            total == record@.len(),
            key <= KEYS,
            out@ == key_maps(record@, key as nat),
        decreases KEYS - key,
    {
        let at = NAME_LEN + key * ENTRY_LEN;
        if at + ENTRY_LEN <= total {
            let slot = read_u16(record, at).unwrap();
            if slot != 0 {
                out.push(
                    KeyMap {
                        key: key as u8,
                        slot,
                        level: read_u16(record, at + 2).unwrap(),
                        pan: read_u16(record, at + 4).unwrap(),
                    },
                );
            }
        }
        key = key + 1;
    }
    out
}

/// The user sample slots a multisample plays, 1-based, deduplicated in key order.
pub fn sample_slots(record: &[u8]) -> (slots: Vec<u16>)
    ensures
        slots@ == msmp_slots(record@, KEYS as nat),
{
    let total = record.len();
    let mut slots: Vec<u16> = Vec::new();
    let mut key: usize = 0;
    while key < KEYS
        invariant
            total == record@.len(),
            key <= KEYS,
            slots@ == msmp_slots(record@, key as nat),
        decreases KEYS - key,
    {
        let at = NAME_LEN + key * ENTRY_LEN;
        if at + ENTRY_LEN <= total {
            let slot = read_u16(record, at).unwrap();
            if slot != 0 {
                add_new(&mut slots, slot);
            }
        }
        key = key + 1;
    }
    slots
}

/// Whether key `k`'s sample reference is rewritten by `remap`.
pub open spec fn key_remapped(r: Seq<u8>, m: Map<u16, u16>, k: int) -> bool {
    &&& 0 <= k < KEYS
    &&& entry_at(k) + 2 <= r.len()
    &&& m.contains_key(le16(r, entry_at(k)))
}

/// Whether byte `i` is a sample reference that `remap` rewrites.
pub open spec fn in_key_remapped(r: Seq<u8>, m: Map<u16, u16>, i: int) -> bool {
    exists|k: int| key_remapped(r, m, k) && entry_at(k) <= i < entry_at(k) + 2
}

/// Rewrite a multisample's sample references through `remap` (old slot -> new slot).
pub fn remap_sample_slots(record: &mut [u8], remap: &BTreeMap<u16, u16>)
    ensures
        final(record)@.len() == old(record)@.len(),
        forall|k: int|
            key_remapped(old(record)@, remap@, k) ==> le16(final(record)@, entry_at(k))
                == remap@[le16(old(record)@, entry_at(k))],
        forall|i: int|
            0 <= i < old(record)@.len() && !in_key_remapped(old(record)@, remap@, i)
                ==> final(record)@[i] == old(record)@[i],
{
    let ghost r0 = record@;
    let total = record.len();
    let mut key: usize = 0;
    while key < KEYS
        invariant
            total == record@.len() == r0.len(),
            key <= KEYS,
            forall|k: int|
                0 <= k < key && key_remapped(r0, remap@, k) ==> le16(record@, entry_at(k))
                    == remap@[le16(r0, entry_at(k))],
            forall|i: int|
                0 <= i < r0.len() && !(exists|k: int|
                    0 <= k < key && key_remapped(r0, remap@, k) && entry_at(k) <= i < entry_at(k)
                        + 2) ==> record@[i] == r0[i],
        decreases KEYS - key,
    {
        let at = NAME_LEN + key * ENTRY_LEN;
        if let Some(slot) = read_u16(record, at) {
            proof {
                assert(!(exists|k: int|
                    0 <= k < key && key_remapped(r0, remap@, k) && entry_at(k) <= at < entry_at(k) + 2));
                assert(!(exists|k: int|
                    0 <= k < key && key_remapped(r0, remap@, k) && entry_at(k) <= at + 1 < entry_at(k) + 2));
            }
            match remap.get(&slot) {
                Some(new) => {
                    write_u16(record, at, *new);
                    assert(key_remapped(r0, remap@, key as int));
                },
                None => {},
            }
        }
        key = key + 1;
    }
    assert forall|i: int|
        0 <= i < r0.len() && !in_key_remapped(r0, remap@, i) implies record@[i] == r0[i] by {
        if exists|k: int|
            0 <= k < KEYS && key_remapped(r0, remap@, k) && entry_at(k) <= i < entry_at(k) + 2 {
            let k = choose|k: int|
                0 <= k < KEYS && key_remapped(r0, remap@, k) && entry_at(k) <= i < entry_at(k) + 2;
            assert(in_key_remapped(r0, remap@, i));
        }
    }
}

} // verus!
