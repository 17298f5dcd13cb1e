//! SVD/SVZ container framing: the envelope of a Fantom file — where its bytes live — not the
//! musical meaning of those bytes (that is [`crate::model`]).

pub mod ins;
pub mod msmp;
pub mod pat;
pub mod raw;
pub mod records;
pub mod sample;
pub mod slots;
pub mod svd;
pub mod zone;

use std::collections::BTreeMap;

use vstd::prelude::*;

use crate::address::tag4;
use crate::bytes::{same_tag, tag_of};

pub use msmp::{key_map as multisample_key_map, KeyMap};
pub use pat::{remap_sample_slots, sample_slots, PatArea, Tone};
pub use raw::Raw;
pub use records::RecordTable;
pub use sample::{read as read_samples, Multisample, SampleBank, SampleData, SampleSlot};
pub use svd::{Area, Kind, Svd, PREAMBLE_LEN};
pub use zone::{RawZone, ZoneSettings};

verus! {

/// The user sample slots a record of area `tag` plays, by where that area keeps them.
pub open spec fn record_slots(tag: Seq<u8>, r: Seq<u8>) -> Seq<u16> {
    if tag == tag4('P', 'A', 'T', 'a') {
        pat::pat_slots(r, pat::PARTIAL_COUNT as nat)
    } else if tag == tag4('I', 'N', 'S', 'a') {
        ins::ins_slots(r)
    } else if tag == tag4('M', 'L', 'S', 'a') || tag == tag4('M', 'S', 'P', 'a') {
        msmp::msmp_slots(r, msmp::KEYS as nat)
    } else {
        Seq::empty()
    }
}

/// The user sample slots one record of `tag` plays, 1-based.
///
/// A `PATa` tone keeps four partials inline, a drum kit's references live in its paired `INSa`,
/// and a multisample (`MLSa` / `MSPa`) names samples per key. Any other area answers with an
/// empty list.
pub fn sample_slots_of(tag: &[u8; 4], record: &[u8]) -> (slots: Vec<u16>)
    ensures
        slots@ == record_slots(tag@, record@),
{
    if same_tag(tag, &tag_of(0x50, 0x41, 0x54, 0x61)) {
        pat::sample_slots(record)
    } else if same_tag(tag, &tag_of(0x49, 0x4e, 0x53, 0x61)) {
        ins::sample_slots(record)
    } else if same_tag(tag, &tag_of(0x4d, 0x4c, 0x53, 0x61)) || same_tag(
        tag,
        &tag_of(0x4d, 0x53, 0x50, 0x61),
    ) {
        msmp::sample_slots(record)
    } else {
        Vec::new()
    }
}

/// Whether `new` is record `old` of area `tag` with its user-sample references rewritten through
/// `m`: each reference `m` renumbers holds its new number, every other byte is unchanged.
pub open spec fn remapped(tag: Seq<u8>, old: Seq<u8>, new: Seq<u8>, m: Map<u16, u16>) -> bool {
    &&& new.len() == old.len()
    &&& tag == tag4('P', 'A', 'T', 'a') ==> {
        &&& forall|p: int|
            pat::remapped_partial(old, m, p) ==> crate::bytes::le16(new, pat::number_at(p))
                == m[crate::bytes::le16(old, pat::number_at(p))]
        &&& forall|i: int|
            0 <= i < old.len() && !pat::in_remapped_partial(old, m, i) ==> new[i] == old[i]
    }
    &&& tag == tag4('I', 'N', 'S', 'a') ==> {
        &&& forall|i: int, f: int|
            ins::ins_remapped(old, m, i, f) ==> crate::bytes::le16(new, ins::ins_number_at(i, f))
                == m[crate::bytes::le16(old, ins::ins_number_at(i, f))]
        &&& forall|k: int|
            0 <= k < old.len() && !ins::in_ins_remapped(old, m, k) ==> new[k] == old[k]
    }
    &&& tag == tag4('M', 'L', 'S', 'a') || tag == tag4('M', 'S', 'P', 'a') ==> {
        &&& forall|k: int|
            msmp::key_remapped(old, m, k) ==> crate::bytes::le16(new, msmp::entry_at(k))
                == m[crate::bytes::le16(old, msmp::entry_at(k))]
        &&& forall|i: int|
            0 <= i < old.len() && !msmp::in_key_remapped(old, m, i) ==> new[i] == old[i]
    }
    &&& !(tag == tag4('P', 'A', 'T', 'a') || tag == tag4('I', 'N', 'S', 'a') || tag == tag4(
        'M',
        'L',
        'S',
        'a',
    ) || tag == tag4('M', 'S', 'P', 'a')) ==> new == old
}

/// Rewrite one record's user-sample references through `remap`, whichever area it belongs to.
/// Records of other areas are left as they are.
pub fn remap_sample_slots_of(tag: &[u8; 4], record: &mut [u8], remap: &BTreeMap<u16, u16>)
    ensures
        remapped(tag@, old(record)@, final(record)@, remap@),
{
    if same_tag(tag, &tag_of(0x50, 0x41, 0x54, 0x61)) {
        pat::remap_sample_slots(record, remap);
    } else if same_tag(tag, &tag_of(0x49, 0x4e, 0x53, 0x61)) {
        ins::remap_sample_slots(record, remap);
    } else if same_tag(tag, &tag_of(0x4d, 0x4c, 0x53, 0x61)) || same_tag(
        tag,
        &tag_of(0x4d, 0x53, 0x50, 0x61),
    ) {
        msmp::remap_sample_slots(record, remap);
    }
}


/// Two little-endian 16-bit fields that read the same hold the same two bytes.
pub proof fn lemma_le16_bytes(a: Seq<u8>, b: Seq<u8>, at: int)
    requires
        0 <= at,
        at + 2 <= a.len(),
        at + 2 <= b.len(),
        crate::bytes::le16(a, at) == crate::bytes::le16(b, at),
    ensures
        a[at] == b[at],
        a[at + 1] == b[at + 1],
{
    let (x0, x1, y0, y1) = (a[at], a[at + 1], b[at], b[at + 1]);
    assert(x0 as int + x1 as int * 256 == y0 as int + y1 as int * 256) by {
        assert(0 <= x0 as int + x1 as int * 256 < 65536) by (nonlinear_arith)
            requires
                x0 < 256,
                x1 < 256,
        ;
        assert(0 <= y0 as int + y1 as int * 256 < 65536) by (nonlinear_arith)
            requires
                y0 < 256,
                y1 < 256,
        ;
    }
    assert(x0 == y0 && x1 == y1) by (nonlinear_arith)
        requires
            x0 as int + x1 as int * 256 == y0 as int + y1 as int * 256,
            x0 < 256,
            x1 < 256,
            y0 < 256,
            y1 < 256,
    ;
}

/// A tone record's references rewritten through one map can only come out one way.
pub proof fn lemma_remapped_unique(old: Seq<u8>, n1: Seq<u8>, n2: Seq<u8>, m: Map<u16, u16>)
    requires
        remapped(tag4('P', 'A', 'T', 'a'), old, n1, m),
        remapped(tag4('P', 'A', 'T', 'a'), old, n2, m),
    ensures
        n1 == n2,
{
    assert forall|i: int| 0 <= i < old.len() implies n1[i] == n2[i] by {
        if pat::in_remapped_partial(old, m, i) {
            let p = choose|p: int| pat::remapped_partial(old, m, p) && pat::number_at(p) <= i < pat::number_at(p) + 2;
            lemma_le16_bytes(n1, n2, pat::number_at(p));
        }
    }
    assert(n1 =~= n2);
}


/// A drum kit's wave-number field lies inside its record.
proof fn lemma_ins_field_inside(r: Seq<u8>, i: int, f: int)
    requires
        0 <= i < ins::instruments(r),
        0 <= f < 8,
    ensures
        0 <= ins::ins_number_at(i, f),
        ins::ins_number_at(i, f) + 2 <= r.len(),
{
    let n = r.len() as int;
    assert(216 * i + 216 <= n) by (nonlinear_arith)
        requires
            0 <= i < n / 216,
            n >= 0,
    ;
    assert(0 <= f / 2 <= 3 && 0 <= f % 2 <= 1);
}

/// A record's references rewritten through one map can only come out one way, whatever area
/// it belongs to.
pub proof fn lemma_remapped_same(tag: Seq<u8>, old: Seq<u8>, n1: Seq<u8>, n2: Seq<u8>, m: Map<u16, u16>)
    requires
        remapped(tag, old, n1, m),
        remapped(tag, old, n2, m),
    ensures
        n1 == n2,
{
    if tag == tag4('P', 'A', 'T', 'a') {
        lemma_remapped_unique(old, n1, n2, m);
    } else if tag == tag4('I', 'N', 'S', 'a') {
        assert forall|k: int| 0 <= k < old.len() implies n1[k] == n2[k] by {
            if ins::in_ins_remapped(old, m, k) {
                let (i, f) = choose|i: int, f: int|
                    ins::ins_remapped(old, m, i, f) && ins::ins_number_at(i, f) <= k < ins::ins_number_at(i, f) + 2;
                lemma_ins_field_inside(old, i, f);
                lemma_le16_bytes(n1, n2, ins::ins_number_at(i, f));
            }
        }
        assert(n1 =~= n2);
    } else if tag == tag4('M', 'L', 'S', 'a') || tag == tag4('M', 'S', 'P', 'a') {
        assert forall|i: int| 0 <= i < old.len() implies n1[i] == n2[i] by {
            if msmp::in_key_remapped(old, m, i) {
                let k = choose|k: int| msmp::key_remapped(old, m, k) && msmp::entry_at(k) <= i < msmp::entry_at(k) + 2;
                assert(0 <= msmp::entry_at(k));
                lemma_le16_bytes(n1, n2, msmp::entry_at(k));
            }
        }
        assert(n1 =~= n2);
    }
}

} // verus!

verus! {

/// Where a slot number lands under `m`: its new number when `m` moves it, else where it was.
pub open spec fn retarget(m: Map<u16, u16>, x: u16) -> u16 {
    if m.contains_key(x) {
        m[x]
    } else {
        x
    }
}

/// The slots a tone record's partials play, as a set: the wave number of each partial that
/// plays a user sample.
proof fn lemma_pat_slot_set(r: Seq<u8>, p: nat)
    ensures
        forall|x: u16|
            pat::pat_slots(r, p).contains(x) <==> exists|q: int|
                0 <= q < p && pat::plays_sample(r, q) && #[trigger] crate::bytes::le16(r, pat::number_at(q)) == x,
    decreases p,
{
    if p > 0 {
        lemma_pat_slot_set(r, (p - 1) as nat);
        let prev = pat::pat_slots(r, (p - 1) as nat);
        assert forall|x: u16|
            pat::pat_slots(r, p).contains(x) <==> exists|q: int|
                0 <= q < p && pat::plays_sample(r, q) && #[trigger] crate::bytes::le16(r, pat::number_at(q)) == x by {
            if pat::plays_sample(r, p - 1) {
                let y = crate::bytes::le16(r, pat::number_at(p - 1));
                if !prev.contains(y) {
                    let pushed = prev.push(y);
                    assert(pushed[prev.len() as int] == y);
                    if prev.contains(x) {
                        let i = choose|i: int| 0 <= i < prev.len() && prev[i] == x;
                        assert(pushed[i] == x);
                    }
                    if pushed.contains(x) {
                        let i = choose|i: int| 0 <= i < pushed.len() && pushed[i] == x;
                        if i < prev.len() {
                            assert(prev[i] == x);
                        }
                    }
                    assert(pushed.contains(x) <==> (prev.contains(x) || x == y));
                }
            }
            if exists|q: int| 0 <= q < p && pat::plays_sample(r, q) && #[trigger] crate::bytes::le16(r, pat::number_at(q)) == x {
                let q = choose|q: int| 0 <= q < p && pat::plays_sample(r, q) && #[trigger] crate::bytes::le16(r, pat::number_at(q)) == x;
                if q < p - 1 {
                    assert(prev.contains(x));
                }
            }
        }
    }
}

/// What rewriting a tone record through `m` does to one partial: whether it plays a user sample
/// stays as it was, and the sample it plays moves as `m` says.
proof fn lemma_remapped_partial(old: Seq<u8>, new: Seq<u8>, m: Map<u16, u16>, q: int)
    requires
        remapped(tag4('P', 'A', 'T', 'a'), old, new, m),
        forall|k: u16| #[trigger] m.contains_key(k) ==> m[k] != 0,
        !m.contains_key(0),
        0 <= q < pat::PARTIAL_COUNT,
    ensures
        pat::plays_sample(new, q) == pat::plays_sample(old, q),
        pat::plays_sample(old, q) ==> crate::bytes::le16(new, pat::number_at(q)) == retarget(
            m,
            crate::bytes::le16(old, pat::number_at(q)),
        ),
{
    if pat::partial_present(old, q) {
        let g = pat::group_at(q);
        assert(!pat::in_remapped_partial(old, m, g)) by {
            if pat::in_remapped_partial(old, m, g) {
                let p = choose|p: int| pat::remapped_partial(old, m, p) && pat::number_at(p) <= g < pat::number_at(p) + 2;
                assert(0 <= p < 4);
                assert(false);
            }
        }
        assert(new[g] == old[g]);
        let at = pat::number_at(q);
        if pat::remapped_partial(old, m, q) {
            assert(crate::bytes::le16(new, at) == m[crate::bytes::le16(old, at)]);
            assert(m.contains_key(crate::bytes::le16(old, at)));
            assert(crate::bytes::le16(old, at) != 0);
        } else {
            assert forall|i: int| at <= i < at + 2 implies !pat::in_remapped_partial(old, m, i) by {
                if pat::in_remapped_partial(old, m, i) {
                    let p = choose|p: int| pat::remapped_partial(old, m, p) && pat::number_at(p) <= i < pat::number_at(p) + 2;
                    assert(0 <= p < 4);
                    assert(p == q);
                }
            }
            assert(new[at] == old[at]);
            assert(new[at + 1] == old[at + 1]);
        }
    }
}

/// Rewriting a tone record's sample references through `m`, which neither moves nor makes a
/// slot 0, leaves it playing exactly the slots it played before, each moved as `m` says.
pub proof fn law_remapped_record_slots(old: Seq<u8>, new: Seq<u8>, m: Map<u16, u16>)
    requires
        remapped(tag4('P', 'A', 'T', 'a'), old, new, m),
        forall|k: u16| #[trigger] m.contains_key(k) ==> m[k] != 0,
        !m.contains_key(0),
    ensures
        record_slots(tag4('P', 'A', 'T', 'a'), new).to_set() == record_slots(tag4('P', 'A', 'T', 'a'), old).to_set().map(
            |x: u16| retarget(m, x),
        ),
{
    let n = pat::PARTIAL_COUNT as nat;
    lemma_pat_slot_set(old, n);
    lemma_pat_slot_set(new, n);
    let before = pat::pat_slots(old, n).to_set();
    let after = pat::pat_slots(new, n).to_set();
    assert forall|x: u16| after.contains(x) <==> before.map(|y: u16| retarget(m, y)).contains(x) by {
        if after.contains(x) {
            assert(pat::pat_slots(new, n).contains(x));
            let q = choose|q: int| 0 <= q < n && pat::plays_sample(new, q) && #[trigger] crate::bytes::le16(new, pat::number_at(q)) == x;
            lemma_remapped_partial(old, new, m, q);
            let y = crate::bytes::le16(old, pat::number_at(q));
            assert(pat::pat_slots(old, n).contains(y));
            assert(before.contains(y));
            assert(retarget(m, y) == x);
        }
        if before.map(|y: u16| retarget(m, y)).contains(x) {
            let y = choose|y: u16| before.contains(y) && retarget(m, y) == x;
            assert(pat::pat_slots(old, n).contains(y));
            let q = choose|q: int| 0 <= q < n && pat::plays_sample(old, q) && #[trigger] crate::bytes::le16(old, pat::number_at(q)) == y;
            lemma_remapped_partial(old, new, m, q);
            assert(crate::bytes::le16(new, pat::number_at(q)) == x);
            assert(pat::pat_slots(new, n).contains(x));
        }
    }
    assert(after =~= before.map(|y: u16| retarget(m, y)));
}

} // verus!

verus! {

/// A tone record never plays slot 0: a wave number of zero means no wave.
pub proof fn lemma_record_slots_nonzero(r: Seq<u8>)
    ensures
        !record_slots(tag4('P', 'A', 'T', 'a'), r).contains(0),
{
    lemma_pat_slot_set(r, pat::PARTIAL_COUNT as nat);
}

} // verus!
