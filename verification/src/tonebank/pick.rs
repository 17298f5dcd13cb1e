//! Picking tones out of a tone bank, with the samples they play.

use std::collections::BTreeMap;

use vstd::prelude::*;

use super::layout::{area_of, assemble, build_waveform_area, svz_outcome, wave_area};
use crate::container::Raw;
use super::load::{
    bank_wf, loaded_wf, pieces_view, usda, waves_view, AreaOut, LoadedArea, LoadedView, ToneBank,
    ToneBankView, Wave, Waveform,
};
use crate::address::tag4;
use crate::bytes::{copy_range, tag_of};
use crate::container::pat::{pat_slots, sample_slots, PARTIAL_COUNT};
use crate::container::slots::{ascending, insert_sorted, lemma_ascending_unique, push_new};
use crate::container::{lemma_remapped_unique, remap_sample_slots_of, remapped};
use crate::repackage::rebuild::Piece;
use crate::{Error, Result};

verus! {

/// `PATa`, the ZEN-Core tone area.
pub open spec fn pata() -> Seq<u8> {
    tag4('P', 'A', 'T', 'a')
}

/// The user sample slots tone `index` of bank `b` plays. Only a ZEN-Core tone says which: for any
/// other engine the answer is unknown, and empty here.
pub open spec fn samples_of(b: ToneBankView, index: int) -> Seq<u16> {
    if b.row == 0 && 0 <= index < b.family[0].records.len() {
        pat_slots(b.family[0].records[index], PARTIAL_COUNT as nat)
    } else {
        Seq::empty()
    }
}

/// `seen` followed by every element of `xs` it does not hold yet, each once.
pub open spec fn add_all(seen: Seq<u16>, xs: Seq<u16>) -> Seq<u16>
    decreases xs.len(),
{
    if xs.len() == 0 {
        seen
    } else {
        push_new(add_all(seen, xs.drop_last()), xs.last())
    }
}

/// The sample slots the tones `keep` play, in the order first played, each once.
pub open spec fn slot_order(b: ToneBankView, keep: Seq<usize>) -> Seq<u16>
    decreases keep.len(),
{
    if keep.len() == 0 {
        Seq::empty()
    } else {
        add_all(slot_order(b, keep.drop_last()), samples_of(b, keep.last() as int))
    }
}

/// The renumbering of the first `n` slots of `order`: the `j`th becomes `j + 1`.
pub open spec fn order_map(order: Seq<u16>, n: int) -> Map<u16, u16>
    decreases n,
{
    if n <= 0 {
        Map::empty()
    } else {
        order_map(order, n - 1).insert(order[n - 1], n as u16)
    }
}

/// The records of `l` at `keep`, in that order.
pub open spec fn chosen(l: LoadedView, keep: Seq<usize>) -> Seq<Seq<u8>> {
    keep.map_values(|k: usize| l.records[k as int])
}

/// The info words of `l` at `keep`, in that order.
pub open spec fn chosen_info(l: LoadedView, keep: Seq<usize>) -> Seq<Seq<u8>> {
    keep.map_values(|k: usize| l.info[k as int])
}

/// Whether `first` is the chosen records of the engine's own area as they are written out: with
/// their sample references renumbered when the chosen tones play any, untouched otherwise.
pub open spec fn first_records(b: ToneBankView, keep: Seq<usize>, first: Seq<Seq<u8>>) -> bool {
    let order = slot_order(b, keep);
    &&& first.len() == keep.len()
    &&& forall|k: int|
        0 <= k < keep.len() ==> if order.len() > 0 {
            remapped(
                pata(),
                chosen(b.family[0], keep)[k],
                #[trigger] first[k],
                order_map(order, order.len() as int),
            )
        } else {
            first[k] == chosen(b.family[0], keep)[k]
        }
}

/// The engine areas of the result: the chosen tones, the engine's own area holding `first`.
pub open spec fn family_pieces(b: ToneBankView, keep: Seq<usize>, first: Seq<Seq<u8>>) -> Seq<
    Piece,
> {
    Seq::new(
        b.family.len(),
        |p: int|
            (
                b.family[p].tag@,
                b.family[p].format@,
                area_of(
                    b.family[p],
                    if p == 0 {
                        first
                    } else {
                        chosen(b.family[p], keep)
                    },
                    chosen_info(b.family[p], keep),
                ),
            ),
    )
}

/// The first of `idx` past the records of `l`.
pub open spec fn first_missing(l: LoadedView, idx: Seq<int>) -> Option<int>
    decreases idx.len(),
{
    if idx.len() == 0 {
        None
    } else {
        match first_missing(l, idx.drop_last()) {
            Some(j) => Some(j),
            None => if idx.last() >= l.records.len() {
                Some(idx.len() - 1)
            } else {
                None
            },
        }
    }
}

/// The first waveform section of slot `slot`.
pub open spec fn first_wave(ws: Seq<Wave>, slot: int) -> Option<int>
    decreases ws.len(),
{
    if ws.len() == 0 {
        None
    } else {
        match first_wave(ws.drop_last(), slot) {
            Some(j) => Some(j),
            None => if ws.last().0 as int == slot {
                Some(ws.len() - 1)
            } else {
                None
            },
        }
    }
}

/// The waveforms of slots `idx[0..n]`, renumbered by position, or the first slot without one.
pub open spec fn slot_waves(ws: Seq<Wave>, idx: Seq<int>, n: int) -> Result<Seq<Wave>>
    decreases n,
{
    if n <= 0 {
        Ok(Seq::empty())
    } else {
        match slot_waves(ws, idx, n - 1) {
            Err(e) => Err(e),
            Ok(out) => match first_wave(ws, idx[n - 1]) {
                None => Err(Error::NoWaveform { slot: idx[n - 1] as usize }),
                Some(j) => Ok(out.push(((n - 1) as u32, ws[j].1, ws[j].2))),
            },
        }
    }
}

/// The sample areas of the result. An engine whose references are not decoded carries every
/// sample it has at its old number; otherwise the slots the chosen tones play travel, in
/// ascending slot order (`keys`), renumbered by position.
pub open spec fn sample_pieces(b: ToneBankView, keep: Seq<usize>, keys: Seq<u16>) -> Result<
    Seq<Piece>,
> {
    let order = slot_order(b, keep);
    if b.row != 0 && (b.slots is Some || b.waves.len() > 0) {
        Ok(
            (match b.slots {
                Some(l) => seq![(l.tag@, l.format@, area_of(l, l.records, l.info))],
                None => Seq::empty(),
            }) + (if b.waves.len() > 0 {
                seq![(usda(), b.wave_format@, wave_area(b.waves))]
            } else {
                Seq::empty()
            }),
        )
    } else if order.len() > 0 {
        match b.slots {
            None => Err(Error::NoSlotArea),
            Some(l) => {
                let idx = keys.map_values(|s: u16| s - 1);
                match first_missing(l, idx) {
                    Some(j) => Err(
                        Error::AreaRecordOutOfRange {
                            tag: l.tag,
                            index: idx[j] as usize,
                            count: l.records.len() as usize,
                        },
                    ),
                    None => match slot_waves(b.waves, idx, idx.len() as int) {
                        Err(e) => Err(e),
                        Ok(ws) => Ok(
                            seq![
                                (
                                    l.tag@,
                                    l.format@,
                                    area_of(
                                        l,
                                        idx.map_values(|i: int| l.records[i]),
                                        idx.map_values(|i: int| l.info[i]),
                                    ),
                                ),
                                (usda(), b.wave_format@, wave_area(ws)),
                            ],
                        ),
                    },
                }
            },
        }
    } else {
        Ok(Seq::empty())
    }
}

/// The areas of a bank holding tones `keep` of `b` (its own area holding `first`), the sample
/// slots listed ascending in `keys`: the engine areas, the sample areas, then what `b` carries
/// over.
pub open spec fn extraction(
    b: ToneBankView,
    keep: Seq<usize>,
    first: Seq<Seq<u8>>,
    keys: Seq<u16>,
) -> Result<Seq<Piece>> {
    match sample_pieces(b, keep, keys) {
        Err(e) => Err(e),
        Ok(sp) => Ok(family_pieces(b, keep, first) + sp + b.other),
    }
}


/// The sample slots tone `index` plays, as far as its engine says.
pub fn slots_played(bank: &ToneBank, index: usize) -> (v: Vec<u16>)
    requires
        bank_wf(bank@),
    ensures
        v@ == samples_of(bank@, index as int),
{
    if bank.row != 0 || index >= bank.family[0].records.len() {
        return Vec::new();
    }
    assert(bank@.family[0] == bank.family@[0]@);
    sample_slots(bank.family[0].records[index].as_slice())
}

proof fn lemma_order_map(order: Seq<u16>, n: int)
    requires
        0 <= n <= order.len(),
    ensures
        forall|x: u16|
            #![trigger order_map(order, n).contains_key(x)]
            order_map(order, n).contains_key(x) <==> order.subrange(0, n).contains(x),
    decreases n,
{
    if n > 0 {
        lemma_order_map(order, n - 1);
        let a = order.subrange(0, n - 1);
        let b = order.subrange(0, n);
        assert forall|x: u16| #![trigger order_map(order, n).contains_key(x)]
            order_map(order, n).contains_key(x) <==> b.contains(x) by {
            assert(order_map(order, n) == order_map(order, n - 1).insert(order[n - 1], n as u16));
            assert(order_map(order, n - 1).contains_key(x) <==> a.contains(x));
            if a.contains(x) {
                let j = choose|j: int| 0 <= j < a.len() && #[trigger] a[j] == x;
                assert(b[j] == x);
            }
            if x == order[n - 1] {
                assert(b[n - 1] == x);
            }
            if b.contains(x) {
                let j = choose|j: int| 0 <= j < b.len() && #[trigger] b[j] == x;
                if j < n - 1 {
                    assert(a[j] == x);
                }
            }
        }
    }
}

proof fn lemma_order_map_push(order: Seq<u16>, x: u16, n: int)
    requires
        0 <= n <= order.len(),
    ensures
        order_map(order.push(x), n) == order_map(order, n),
    decreases n,
{
    if n > 0 {
        lemma_order_map_push(order, x, n - 1);
    }
}

/// The slots the tones `keep` play in first-played order, and their renumbering.
fn dense_order(bank: &ToneBank, keep: &[usize]) -> (r: (Vec<u16>, BTreeMap<u16, u16>))
    requires
        bank_wf(bank@),
    ensures
        r.0@ == slot_order(bank@, keep@),
        r.1@ == order_map(r.0@, r.0@.len() as int),
{
    let mut order: Vec<u16> = Vec::new();
    let mut map: BTreeMap<u16, u16> = BTreeMap::new();
    let mut k: usize = 0;
    assert(map@ =~= order_map(order@, 0));
    while k < keep.len()
        invariant
            k <= keep@.len(),
            bank_wf(bank@),
            order@ == slot_order(bank@, keep@.subrange(0, k as int)),
            map@ == order_map(order@, order@.len() as int),
        decreases keep@.len() - k,
    {
        assert(keep@.subrange(0, k + 1).drop_last() =~= keep@.subrange(0, k as int));
        let played = slots_played(bank, keep[k]);
        let ghost start = order@;
        let mut j: usize = 0;
        while j < played.len()
            invariant
                j <= played@.len(),
                order@ == add_all(start, played@.subrange(0, j as int)),
                map@ == order_map(order@, order@.len() as int),
            decreases played@.len() - j,
        {
            assert(played@.subrange(0, j + 1).drop_last() =~= played@.subrange(0, j as int));
            let slot = played[j];
            proof {
                lemma_order_map(order@, order@.len() as int);
                assert(order@.subrange(0, order@.len() as int) =~= order@);
            }
            if !map.contains_key(&slot) {
                let next = (order.len() as u128 + 1) as u16;
                let ghost before = order@;
                map.insert(slot, next);
                order.push(slot);
                proof {
                    lemma_order_map_push(before, slot, before.len() as int);
                }
                assert(map@ =~= order_map(order@, order@.len() as int));
            }
            j = j + 1;
        }
        assert(played@.subrange(0, j as int) =~= played@);
        k = k + 1;
    }
    assert(keep@.subrange(0, k as int) =~= keep@);
    (order, map)
}


pub proof fn lemma_pat_slots_nonzero(r: Seq<u8>, p: nat)
    ensures
        forall|i: int| 0 <= i < pat_slots(r, p).len() ==> #[trigger] pat_slots(r, p)[i] != 0,
    decreases p,
{
    if p > 0 {
        lemma_pat_slots_nonzero(r, (p - 1) as nat);
        let prev = pat_slots(r, (p - 1) as nat);
        if crate::container::pat::plays_sample(r, p - 1) {
            let x = crate::bytes::le16(r, crate::container::pat::number_at(p - 1));
            assert(x != 0);
            if !prev.contains(x) {
                assert forall|i: int| 0 <= i < prev.push(x).len() implies #[trigger] prev.push(x)[i]
                    != 0 by {
                    if i < prev.len() {
                        assert(prev.push(x)[i] == prev[i]);
                    }
                }
            }
        }
    }
}

proof fn lemma_add_all_nonzero(seen: Seq<u16>, xs: Seq<u16>)
    requires
        forall|i: int| 0 <= i < seen.len() ==> #[trigger] seen[i] != 0,
        forall|i: int| 0 <= i < xs.len() ==> #[trigger] xs[i] != 0,
    ensures
        forall|i: int| 0 <= i < add_all(seen, xs).len() ==> #[trigger] add_all(seen, xs)[i] != 0,
    decreases xs.len(),
{
    if xs.len() > 0 {
        lemma_add_all_nonzero(seen, xs.drop_last());
        let prev = add_all(seen, xs.drop_last());
        let x = xs.last();
        if !prev.contains(x) {
            assert forall|i: int| 0 <= i < prev.push(x).len() implies #[trigger] prev.push(x)[i]
                != 0 by {
                if i < prev.len() {
                    assert(prev.push(x)[i] == prev[i]);
                }
            }
        }
    }
}

/// Every slot a tone plays is numbered from 1.
proof fn lemma_slot_order_nonzero(b: ToneBankView, keep: Seq<usize>)
    ensures
        forall|i: int| 0 <= i < slot_order(b, keep).len() ==> #[trigger] slot_order(b, keep)[i] != 0,
    decreases keep.len(),
{
    if keep.len() > 0 {
        lemma_slot_order_nonzero(b, keep.drop_last());
        let index = keep.last() as int;
        if b.row == 0 && 0 <= index < b.family[0].records.len() {
            lemma_pat_slots_nonzero(b.family[0].records[index], PARTIAL_COUNT as nat);
        }
        lemma_add_all_nonzero(slot_order(b, keep.drop_last()), samples_of(b, index));
    }
}

/// The slots of `order`, ascending.
fn ascending_keys(order: &Vec<u16>) -> (keys: Vec<u16>)
    ensures
        ascending(keys@),
        keys@.to_set() == order@.to_set(),
{
    let mut keys: Vec<u16> = Vec::new();
    let mut i: usize = 0;
    assert(keys@.to_set() =~= order@.subrange(0, 0).to_set());
    while i < order.len()
        invariant
            i <= order@.len(),
            ascending(keys@),
            keys@.to_set() == order@.subrange(0, i as int).to_set(),
        decreases order@.len() - i,
    {
        insert_sorted(&mut keys, order[i]);
        assert(order@.subrange(0, i + 1) =~= order@.subrange(0, i as int).push(order@[i as int]));
        proof {
            order@.subrange(0, i as int).lemma_push_to_set_commute(order@[i as int]);
        }
        i = i + 1;
    }
    assert(order@.subrange(0, i as int) =~= order@);
    keys
}

/// The records of `l` at `keep`, and their info words.
fn pick_records(l: &LoadedArea, keep: &[usize]) -> (r: (Vec<Vec<u8>>, Vec<Vec<u8>>))
    requires
        loaded_wf(l@),
        forall|k: int| 0 <= k < keep@.len() ==> (#[trigger] keep@[k]) < l@.records.len(),
    ensures
        r.0@.map_values(|x: Vec<u8>| x@) == chosen(l@, keep@),
        r.1@.map_values(|x: Vec<u8>| x@) == chosen_info(l@, keep@),
        r.0@.len() == keep@.len(),
        r.1@.len() == keep@.len(),
{
    let mut recs: Vec<Vec<u8>> = Vec::new();
    let mut infos: Vec<Vec<u8>> = Vec::new();
    let mut k: usize = 0;
    while k < keep.len()
        invariant
            k <= keep@.len(),
            loaded_wf(l@),
            forall|k: int| 0 <= k < keep@.len() ==> (#[trigger] keep@[k]) < l@.records.len(),
            recs@.len() == k,
            infos@.len() == k,
            forall|j: int| 0 <= j < k ==> (#[trigger] recs@[j])@ == l@.records[keep@[j] as int],
            forall|j: int| 0 <= j < k ==> (#[trigger] infos@[j])@ == l@.info[keep@[j] as int],
        decreases keep@.len() - k,
    {
        let i = keep[k];
        assert(l@.records[i as int] == l.records@[i as int]@);
        assert(l@.info[i as int] == l.info@[i as int]@);
        let r = &l.records[i];
        recs.push(copy_range(r.as_slice(), 0, r.len()));
        let w = &l.info[i];
        infos.push(copy_range(w.as_slice(), 0, w.len()));
        k = k + 1;
    }
    assert(recs@.map_values(|x: Vec<u8>| x@) =~= chosen(l@, keep@));
    assert(infos@.map_values(|x: Vec<u8>| x@) =~= chosen_info(l@, keep@));
    (recs, infos)
}


proof fn lemma_missing_err(l: LoadedView, idx: Seq<int>, k: int)
    requires
        0 <= k <= idx.len(),
        first_missing(l, idx.subrange(0, k)) is Some,
    ensures
        first_missing(l, idx) == first_missing(l, idx.subrange(0, k)),
    decreases idx.len() - k,
{
    if k < idx.len() {
        assert(idx.drop_last().subrange(0, k) =~= idx.subrange(0, k));
        lemma_missing_err(l, idx.drop_last(), k);
    } else {
        assert(idx.subrange(0, k) =~= idx);
    }
}

proof fn lemma_first_wave_prefix(ws: Seq<Wave>, slot: int, n: int)
    requires
        0 < n <= ws.len(),
        first_wave(ws.subrange(0, n), slot) == Some(n - 1),
    ensures
        first_wave(ws, slot) == Some(n - 1),
    decreases ws.len(),
{
    if ws.len() > n {
        assert(ws.drop_last().subrange(0, n) =~= ws.subrange(0, n));
        lemma_first_wave_prefix(ws.drop_last(), slot, n);
    } else {
        assert(ws.subrange(0, n) =~= ws);
    }
}

/// The first waveform of slot `slot`.
fn find_wave(waves: &Vec<Waveform>, slot: usize) -> (r: Option<usize>)
    ensures
        opt_index(r) == first_wave(waves_view(waves@), slot as int),
        r matches Some(j) ==> j < waves@.len(),
{
    let ghost ws = waves_view(waves@);
    let mut j: usize = 0;
    while j < waves.len()
        invariant
            j <= waves@.len(),
            ws == waves_view(waves@),
            first_wave(ws.subrange(0, j as int), slot as int) is None,
        decreases waves@.len() - j,
    {
        assert(ws.subrange(0, j + 1).drop_last() =~= ws.subrange(0, j as int));
        if waves[j].slot as usize == slot {
            proof {
                lemma_first_wave_prefix(ws, slot as int, j + 1);
            }
            return Some(j);
        }
        j = j + 1;
    }
    assert(ws.subrange(0, j as int) =~= ws);
    None
}

/// An optional index as an optional integer.
pub open spec fn opt_index(o: Option<usize>) -> Option<int> {
    match o {
        Some(x) => Some(x as int),
        None => None,
    }
}

proof fn lemma_slot_waves_err(ws: Seq<Wave>, idx: Seq<int>, k: int, n: int)
    requires
        0 <= k <= n,
        slot_waves(ws, idx, k) is Err,
    ensures
        slot_waves(ws, idx, n) == slot_waves(ws, idx, k),
    decreases n - k,
{
    if k < n {
        lemma_slot_waves_err(ws, idx, k, n - 1);
    }
}

/// Append the sample areas of the result (see [`sample_pieces`]).
fn sample_areas(
    bank: &ToneBank,
    Ghost(keep): Ghost<Seq<usize>>,
    order: &Vec<u16>,
    keys: &Vec<u16>,
    out: &mut Vec<AreaOut>,
) -> (r: Result<()>)
    requires
        bank_wf(bank@),
        order@ == slot_order(bank@, keep),
        ascending(keys@),
        keys@.to_set() == order@.to_set(),
    ensures
        match sample_pieces(bank@, keep, keys@) {
            Ok(ps) => r is Ok && pieces_view(final(out)@) == pieces_view(old(out)@) + ps,
            Err(e) => r == Err::<(), Error>(e),
        },
{
    let usd = tag_of(0x55, 0x53, 0x44, 0x61);
    assert(usd@ =~= usda());
    let ghost start = pieces_view(out@);
    if bank.row != 0 && (bank.slots.is_some() || bank.waveforms.len() > 0) {
        // Every slot keeps its original number, so whatever the records reference still resolves.
        match &bank.slots {
            Some(l) => {
                let body = l.assemble(&l.records, &l.info);
                out.push((l.tag, l.format, body));
            },
            None => {},
        }
        let ghost mid = pieces_view(out@);
        if bank.waveforms.len() > 0 {
            let body = build_waveform_area(&bank.waveforms);
            out.push((usd, bank.waveform_format, body));
        }
        proof {
            let sp = sample_pieces(bank@, keep, keys@)->Ok_0;
            assert(pieces_view(out@) =~= start + sp);
        }
        return Ok(());
    }
    if order.len() == 0 {
        assert(pieces_view(out@) =~= start + Seq::<Piece>::empty());
        return Ok(());
    }
    let l = match &bank.slots {
        Some(l) => l,
        None => {
            return Err(Error::NoSlotArea);
        },
    };
    proof {
        lemma_slot_order_nonzero(bank@, keep);
        assert forall|i: int| 0 <= i < keys@.len() implies #[trigger] keys@[i] != 0 by {
            assert(keys@.to_set().contains(keys@[i]));
            assert(order@.to_set().contains(keys@[i]));
            let j = choose|j: int| 0 <= j < order@.len() && #[trigger] order@[j] == keys@[i];
            assert(order@[j] != 0);
        }
    }
    let ghost idx = keys@.map_values(|s: u16| s - 1);
    let mut recs: Vec<Vec<u8>> = Vec::new();
    let mut infos: Vec<Vec<u8>> = Vec::new();
    let mut k: usize = 0;
    while k < keys.len()
        invariant
            k <= keys@.len(),
            idx == keys@.map_values(|s: u16| s - 1),
            forall|i: int| 0 <= i < keys@.len() ==> #[trigger] keys@[i] != 0,
            loaded_wf(l@),
            bank@.slots == Some(l@),
            !(bank@.row != 0 && (bank@.slots is Some || bank@.waves.len() > 0)),
            slot_order(bank@, keep).len() > 0,
            first_missing(l@, idx.subrange(0, k as int)) is None,
            recs@.len() == k,
            infos@.len() == k,
            forall|j: int| 0 <= j < k ==> (#[trigger] recs@[j])@ == l@.records[idx[j]],
            forall|j: int| 0 <= j < k ==> (#[trigger] infos@[j])@ == l@.info[idx[j]],
        decreases keys@.len() - k,
    {
        assert(idx.subrange(0, k + 1).drop_last() =~= idx.subrange(0, k as int));
        let i = (keys[k] - 1) as usize;
        if i >= l.records.len() {
            proof {
                lemma_missing_err(l@, idx, k + 1);
            }
            return Err(Error::AreaRecordOutOfRange { tag: l.tag, index: i, count: l.records.len() });
        }
        assert(l@.records[i as int] == l.records@[i as int]@);
        assert(l@.info[i as int] == l.info@[i as int]@);
        let r = &l.records[i];
        recs.push(copy_range(r.as_slice(), 0, r.len()));
        let w = &l.info[i];
        infos.push(copy_range(w.as_slice(), 0, w.len()));
        k = k + 1;
    }
    assert(idx.subrange(0, k as int) =~= idx);
    let slot_body = l.assemble(&recs, &infos);
    assert(recs@.map_values(|x: Vec<u8>| x@) =~= idx.map_values(|i: int| l@.records[i]));
    assert(infos@.map_values(|x: Vec<u8>| x@) =~= idx.map_values(|i: int| l@.info[i]));
    // The slots were renumbered densely above; the directory must say the same.
    let ghost wsv = waves_view(bank.waveforms@);
    let mut sections: Vec<Waveform> = Vec::new();
    let mut n: usize = 0;
    assert(waves_view(sections@) =~= Seq::<Wave>::empty());
    while n < keys.len()
        invariant
            n <= keys@.len(),
            idx == keys@.map_values(|s: u16| s - 1),
            forall|i: int| 0 <= i < keys@.len() ==> #[trigger] keys@[i] != 0,
            wsv == waves_view(bank.waveforms@),
            bank@.waves == wsv,
            bank@.slots == Some(l@),
            !(bank@.row != 0 && (bank@.slots is Some || bank@.waves.len() > 0)),
            slot_order(bank@, keep).len() > 0,
            first_missing(l@, idx) is None,
            slot_waves(wsv, idx, n as int) == Ok::<Seq<Wave>, Error>(waves_view(sections@)),
        decreases keys@.len() - n,
    {
        let slot = (keys[n] - 1) as usize;
        match find_wave(&bank.waveforms, slot) {
            None => {
                proof {
                    lemma_slot_waves_err(wsv, idx, n + 1, idx.len() as int);
                }
                return Err(Error::NoWaveform { slot });
            },
            Some(j) => {
                let w = &bank.waveforms[j];
                let ghost before = waves_view(sections@);
                let bytes = copy_range(w.bytes.as_slice(), 0, w.bytes.len());
                assert(bytes@ =~= w.bytes@);
                sections.push(Waveform { slot: n as u32, word: w.word, bytes });
                assert(waves_view(sections@) =~= before.push((n as u32, wsv[j as int].1, wsv[j as int].2)));
            },
        }
        n = n + 1;
    }
    let wave_body = build_waveform_area(&sections);
    out.push((l.tag, l.format, slot_body));
    out.push((usd, bank.waveform_format, wave_body));
    proof {
        let sp = sample_pieces(bank@, keep, keys@)->Ok_0;
        assert(pieces_view(out@) =~= start + sp);
    }
    Ok(())
}


/// Whether `r` is what building a bank of tones `keep` of `b` gives.
pub open spec fn pick_outcome(r: Result<Raw>, b: ToneBankView, keep: Seq<usize>) -> bool {
    &&& forall|first: Seq<Seq<u8>>, keys: Seq<u16>|
        #![trigger first_records(b, keep, first), ascending(keys)]
        first_records(b, keep, first) && ascending(keys) && keys.to_set() == slot_order(b, keep).to_set()
            ==> match extraction(b, keep, first, keys) {
            Err(e) => r == Err::<Raw, Error>(e),
            Ok(ps) => svz_outcome(r, b.preamble, b.order, ps),
        }
    &&& exists|first: Seq<Seq<u8>>, keys: Seq<u16>|
        #![trigger first_records(b, keep, first), ascending(keys)]
        first_records(b, keep, first) && ascending(keys) && keys.to_set() == slot_order(b, keep).to_set()
}

/// The renumbered records and the ascending slot list a pick writes out are each one thing only.
pub proof fn lemma_pick_witnesses(
    b: ToneBankView,
    keep: Seq<usize>,
    f1: Seq<Seq<u8>>,
    k1: Seq<u16>,
    f2: Seq<Seq<u8>>,
    k2: Seq<u16>,
)
    requires
        first_records(b, keep, f1),
        first_records(b, keep, f2),
        ascending(k1),
        ascending(k2),
        k1.to_set() == slot_order(b, keep).to_set(),
        k2.to_set() == slot_order(b, keep).to_set(),
    ensures
        f1 == f2,
        k1 == k2,
{
    lemma_ascending_unique(k1, k2);
    let order = slot_order(b, keep);
    assert forall|k: int| 0 <= k < keep.len() implies f1[k] == f2[k] by {
        if order.len() > 0 {
            assert(remapped(pata(), chosen(b.family[0], keep)[k], f1[k], order_map(order, order.len() as int)));
            assert(remapped(pata(), chosen(b.family[0], keep)[k], f2[k], order_map(order, order.len() as int)));
            lemma_remapped_unique(chosen(b.family[0], keep)[k], f1[k], f2[k], order_map(order, order.len() as int));
        }
    }
    assert(f1 =~= f2);
}

/// Emit a bank holding tones `keep` of `bank`, in that order, with the samples they play.
pub fn pick(bank: &ToneBank, keep: &[usize]) -> (r: Result<Raw>)
    requires
        bank_wf(bank@),
        forall|k: int| 0 <= k < keep@.len() ==> (#[trigger] keep@[k]) < bank@.family[0].records.len(),
    ensures
        pick_outcome(r, bank@, keep@),
{
    let (order, map) = dense_order(bank, keep);
    let keys = ascending_keys(&order);
    let pat = tag_of(0x50, 0x41, 0x54, 0x61);
    assert(pat@ =~= pata());
    let ghost fam = bank@.family;
    let mut areas: Vec<AreaOut> = Vec::new();
    let mut first: Vec<Vec<u8>> = Vec::new();
    let mut p: usize = 0;
    while p < bank.family.len()
        invariant
            p <= bank.family@.len(),
            bank_wf(bank@),
            fam == bank@.family,
            forall|k: int| 0 <= k < keep@.len() ==> (#[trigger] keep@[k]) < bank@.family[0].records.len(),
            order@ == slot_order(bank@, keep@),
            map@ == order_map(order@, order@.len() as int),
            pat@ == pata(),
            p > 0 ==> first_records(bank@, keep@, first@.map_values(|x: Vec<u8>| x@)),
            pieces_view(areas@) == family_pieces(bank@, keep@, first@.map_values(|x: Vec<u8>| x@)).subrange(0, p as int),
        decreases bank.family@.len() - p,
    {
        let l = &bank.family[p];
        assert(l@ == fam[p as int]);
        assert(fam[p as int].records.len() == fam[0].records.len());
        let (recs, infos) = pick_records(l, keep);
        let ghost before = pieces_view(areas@);
        if p == 0 {
            // Rewrite the sample references *before* the body is laid out, so the checksum
            // written alongside each covers the record actually emitted.
            let mut out: Vec<Vec<u8>> = Vec::new();
            let mut k: usize = 0;
            while k < recs.len()
                invariant
                    k <= recs@.len() == keep@.len(),
                    recs@.map_values(|x: Vec<u8>| x@) == chosen(l@, keep@),
                    order@ == slot_order(bank@, keep@),
                    map@ == order_map(order@, order@.len() as int),
                    pat@ == pata(),
                    out@.len() == k,
                    forall|j: int| 0 <= j < k ==> if order@.len() > 0 {
                        remapped(pata(), chosen(l@, keep@)[j], #[trigger] out@[j]@, map@)
                    } else {
                        out@[j]@ == chosen(l@, keep@)[j]
                    },
                decreases recs@.len() - k,
            {
                let mut rec = copy_range(recs[k].as_slice(), 0, recs[k].len());
                assert(rec@ =~= recs@[k as int]@);
                assert(recs@[k as int]@ == chosen(l@, keep@)[k as int]);
                if order.len() > 0 {
                    remap_sample_slots_of(&pat, rec.as_mut_slice(), &map);
                }
                out.push(rec);
                k = k + 1;
            }
            first = out;
            let body = l.assemble(&first, &infos);
            areas.push((l.tag, l.format, body));
        } else {
            let body = l.assemble(&recs, &infos);
            areas.push((l.tag, l.format, body));
        }
        proof {
            let fv = first@.map_values(|x: Vec<u8>| x@);
            assert(first_records(bank@, keep@, fv));
            let fp = family_pieces(bank@, keep@, fv);
            assert(infos@.map_values(|x: Vec<u8>| x@) == chosen_info(fam[p as int], keep@));
            assert(pieces_view(areas@).last() == fp[p as int]);
            assert(pieces_view(areas@).drop_last() == before);
            assert(before =~= fp.subrange(0, p as int));
            assert(pieces_view(areas@) =~= fp.subrange(0, p + 1));
        }
        p = p + 1;
    }
    let ghost fv = first@.map_values(|x: Vec<u8>| x@);
    assert(family_pieces(bank@, keep@, fv).subrange(0, p as int) =~= family_pieces(bank@, keep@, fv));
    let ghost fp = pieces_view(areas@);
    match sample_areas(bank, Ghost(keep@), &order, &keys, &mut areas) {
        Ok(()) => {},
        Err(e) => {
            assert(extraction(bank@, keep@, fv, keys@) == Err::<Seq<Piece>, Error>(e));
            proof {
                assert forall|f2: Seq<Seq<u8>>, k2: Seq<u16>|
                    first_records(bank@, keep@, f2) && ascending(k2) && k2.to_set() == slot_order(bank@, keep@).to_set()
                    implies extraction(bank@, keep@, f2, k2) == Err::<Seq<Piece>, Error>(e) by {
                    lemma_pick_witnesses(bank@, keep@, fv, keys@, f2, k2);
                }
            }
            return Err(e);
        },
    }
    let ghost mid = pieces_view(areas@);
    let mut j: usize = 0;
    while j < bank.other.len()
        invariant
            j <= bank.other@.len(),
            pieces_view(areas@) == mid + pieces_view(bank.other@).subrange(0, j as int),
        decreases bank.other@.len() - j,
    {
        let o = &bank.other[j];
        let body = copy_range(o.2.as_slice(), 0, o.2.len());
        assert(body@ =~= o.2@);
        let ghost before = pieces_view(areas@);
        areas.push((o.0, o.1, body));
        assert(pieces_view(areas@) =~= before.push(pieces_view(bank.other@)[j as int]));
        j = j + 1;
        assert(pieces_view(areas@) =~= mid + pieces_view(bank.other@).subrange(0, j as int));
    }
    assert(pieces_view(bank.other@).subrange(0, j as int) =~= bank@.other);
    assert(pieces_view(areas@) == extraction(bank@, keep@, fv, keys@)->Ok_0);
    let r = assemble(&bank.preamble, &bank.order, &areas);
    proof {
        assert forall|f2: Seq<Seq<u8>>, k2: Seq<u16>|
            first_records(bank@, keep@, f2) && ascending(k2) && k2.to_set() == slot_order(bank@, keep@).to_set()
            implies extraction(bank@, keep@, f2, k2) == extraction(bank@, keep@, fv, keys@) by {
            lemma_pick_witnesses(bank@, keep@, fv, keys@, f2, k2);
        }
    }
    r
}

} // verus!
