//! Joining two tone banks: every tone of the first, then every tone of the second that the first
//! does not already hold, with the samples they play.

use std::collections::BTreeMap;

use vstd::prelude::*;

use super::layout::{area_of, assemble, build_waveform_area, svz_outcome, wave_area};
use super::load::{
    bank_wf, loaded_wf, pieces_view, usda, waves_view, AreaOut, LoadedArea, LoadedView, ToneBank,
    ToneBankView, Wave, Waveform,
};
use super::pick::{first_wave, lemma_pat_slots_nonzero, pata, samples_of, slots_played};
use crate::address::{area_at, lemma_row_bytes, row_paired};
use crate::container::pat::PARTIAL_COUNT;
use crate::address::row_tag_bytes;
use crate::bytes::{bytes_equal, copy_range, tag_of};
use crate::container::{remap_sample_slots_of, remapped, Raw};
use crate::repackage::rebuild::{entry_view, same_entry, Entry, Piece};
use crate::{Error, Result};

verus! {

/// A join in progress: the tones so far (a record per engine area, sample references already
/// renumbered) with their info words, and the samples so far with their slot records.
pub struct JoinView {
    pub entries: Seq<Entry>,
    pub infos: Seq<Entry>,
    pub waves: Seq<Wave>,
    pub slot_records: Seq<Seq<u8>>,
    pub slot_info: Seq<Seq<u8>>,
}

/// Nothing joined yet.
pub open spec fn empty_join() -> JoinView {
    JoinView {
        entries: Seq::empty(),
        infos: Seq::empty(),
        waves: Seq::empty(),
        slot_records: Seq::empty(),
        slot_info: Seq::empty(),
    }
}

/// Tone `index` of a bank with engine areas `fam`: its record in each.
pub open spec fn tone_entry(fam: Seq<LoadedView>, index: int) -> Entry {
    Seq::new(fam.len(), |p: int| fam[p].records[index])
}

/// The info words of tone `index`.
pub open spec fn tone_info(fam: Seq<LoadedView>, index: int) -> Entry {
    Seq::new(fam.len(), |p: int| fam[p].info[index])
}

/// The first joined sample whose audio is `bytes`.
pub open spec fn first_audio(ws: Seq<Wave>, bytes: Seq<u8>) -> Option<int>
    decreases ws.len(),
{
    if ws.len() == 0 {
        None
    } else {
        match first_audio(ws.drop_last(), bytes) {
            Some(j) => Some(j),
            None => if ws.last().2 == bytes {
                Some(ws.len() - 1)
            } else {
                None
            },
        }
    }
}

/// Carry sample slot `s` (from 1) of bank `x` into the join, sharing identical audio already
/// there, and record where it landed in `remap`.
pub open spec fn slot_step(x: ToneBankView, st: JoinView, remap: Map<u16, u16>, s: u16) -> Result<
    (JoinView, Map<u16, u16>),
> {
    let src = s - 1;
    match first_wave(x.waves, src) {
        None => Err(Error::NoWaveform { slot: src as usize }),
        Some(j) => {
            let w = x.waves[j];
            match first_audio(st.waves, w.2) {
                Some(i) => Ok((st, remap.insert(s, (i + 1) as u16))),
                None => match x.slots {
                    None => Err(Error::SampledWithoutSlots),
                    Some(l) => if src >= l.records.len() {
                        Err(
                            Error::AreaRecordOutOfRange {
                                tag: l.tag,
                                index: src as usize,
                                count: l.records.len() as usize,
                            },
                        )
                    } else {
                        let n = st.waves.len();
                        Ok(
                            (
                                JoinView {
                                    slot_records: st.slot_records.push(l.records[src]),
                                    slot_info: st.slot_info.push(l.info[src]),
                                    waves: st.waves.push((n as u32, w.1, w.2)),
                                    ..st
                                },
                                remap.insert(s, (n + 1) as u16),
                            ),
                        )
                    },
                },
            }
        },
    }
}

/// The first `k` of `slots` carried in order.
pub open spec fn slot_steps(x: ToneBankView, st: JoinView, slots: Seq<u16>, k: int) -> Result<
    (JoinView, Map<u16, u16>),
>
    decreases k,
{
    if k <= 0 {
        Ok((st, Map::empty()))
    } else {
        match slot_steps(x, st, slots, k - 1) {
            Err(e) => Err(e),
            Ok((s2, m)) => slot_step(x, s2, m, slots[k - 1]),
        }
    }
}

/// Tone `index` of bank `x` joined: skipped when an identical tone is there, else its samples
/// carried and its own record, as `first`, added with its references renumbered. The flag says
/// whether `first` is that record renumbered.
pub open spec fn tone_step(x: ToneBankView, st: JoinView, index: int, first: Seq<u8>) -> (
    Result<JoinView>,
    bool,
) {
    let entry = tone_entry(x.family, index);
    if st.entries.contains(entry) {
        (Ok(st), true)
    } else {
        let slots = samples_of(x, index);
        match slot_steps(x, st, slots, slots.len() as int) {
            Err(e) => (Err(e), true),
            Ok((s2, m)) => (
                Ok(
                    JoinView {
                        entries: s2.entries.push(entry.update(0, first)),
                        infos: s2.infos.push(tone_info(x.family, index)),
                        ..s2
                    },
                ),
                if slots.len() > 0 {
                    remapped(pata(), entry[0], first, m)
                } else {
                    first == entry[0]
                },
            ),
        }
    }
}

/// Every tone of `a` and then of `b`: tone `t` of the list is bank `tones[t].0`, index
/// `tones[t].1`, written (when added) with `firsts[t]` as its own record.
pub open spec fn join_steps(
    a: ToneBankView,
    b: ToneBankView,
    tones: Seq<(bool, int)>,
    firsts: Seq<Seq<u8>>,
    n: int,
) -> (Result<JoinView>, bool)
    decreases n,
{
    if n <= 0 {
        (Ok(empty_join()), true)
    } else {
        let prev = join_steps(a, b, tones, firsts, n - 1);
        match prev.0 {
            Err(e) => (Err(e), prev.1),
            Ok(st) => {
                let x = if tones[n - 1].0 {
                    b
                } else {
                    a
                };
                let step = tone_step(x, st, tones[n - 1].1, firsts[n - 1]);
                (step.0, prev.1 && step.1)
            },
        }
    }
}

/// The tones of `a` then of `b`, each as a bank flag (`true` for `b`) and an index.
pub open spec fn tone_list(a: ToneBankView, b: ToneBankView) -> Seq<(bool, int)> {
    Seq::new(a.family[0].records.len(), |i: int| (false, i)) + Seq::new(
        b.family[0].records.len(),
        |i: int| (true, i),
    )
}

/// Whether a bank holds user samples at all, whichever engine it is for.
pub open spec fn carries_samples(x: ToneBankView) -> bool {
    x.slots is Some || x.waves.len() > 0
}

/// Whether two banks carry the same samples in the same slots.
pub open spec fn same_samples(a: ToneBankView, b: ToneBankView) -> bool {
    &&& a.waves.len() == b.waves.len()
    &&& forall|i: int|
        0 <= i < a.waves.len() ==> (#[trigger] a.waves[i]).0 == b.waves[i].0 && a.waves[i].2
            == b.waves[i].2
    &&& match (a.slots, b.slots) {
        (Some(x), Some(y)) => x.records == y.records,
        (None, None) => true,
        _ => false,
    }
}

/// The sample bank a join of two banks whose references are not decoded carries whole: the one
/// that has samples, or either when both have the same ones; refused when both have different
/// ones, since their slots cannot be told apart.
pub open spec fn shared_samples(a: ToneBankView, b: ToneBankView) -> Result<Option<ToneBankView>> {
    match (carries_samples(a), carries_samples(b)) {
        (false, false) => Ok(None),
        (true, false) => Ok(Some(a)),
        (false, true) => Ok(Some(b)),
        (true, true) => if same_samples(a, b) {
            Ok(Some(a))
        } else {
            Err(Error::DifferentSamples { tag: row_tag_bytes(a.row) })
        },
    }
}

/// A bank's samples carried whole.
pub open spec fn whole_samples(x: ToneBankView) -> Seq<Piece> {
    (match x.slots {
        Some(l) => seq![(l.tag@, l.format@, area_of(l, l.records, l.info))],
        None => Seq::empty(),
    }) + (if x.waves.len() > 0 {
        seq![(usda(), x.wave_format@, wave_area(x.waves))]
    } else {
        Seq::empty()
    })
}

/// The engine areas of the joined bank, from the joined state `st`.
pub open spec fn join_fam(a: ToneBankView, st: JoinView) -> Seq<Piece> {
    Seq::new(
        a.family.len(),
        |p: int|
            (
                a.family[p].tag@,
                a.family[p].format@,
                area_of(
                    a.family[p],
                    st.entries.map_values(|e: Entry| e[p]),
                    st.infos.map_values(|e: Entry| e[p]),
                ),
            ),
    )
}

/// The areas of the joined bank, from the joined state `st`.
pub open spec fn join_pieces(a: ToneBankView, b: ToneBankView, st: JoinView) -> Result<Seq<Piece>> {
    let fam = join_fam(a, st);
    let samples: Result<Seq<Piece>> = if a.row != 0 {
        match shared_samples(a, b) {
            Err(e) => Err(e),
            Ok(None) => Ok(Seq::empty()),
            Ok(Some(src)) => Ok(whole_samples(src)),
        }
    } else if st.waves.len() > 0 {
        let slots = match a.slots {
            Some(l) => Some(l),
            None => b.slots,
        };
        match slots {
            None => Err(Error::MergedWithoutSlots),
            Some(l) => Ok(
                seq![
                    (l.tag@, l.format@, area_of(l, st.slot_records, st.slot_info)),
                    (usda(), a.wave_format@, wave_area(st.waves)),
                ],
            ),
        }
    } else {
        Ok(Seq::empty())
    };
    match samples {
        Err(e) => Err(e),
        Ok(sp) => Ok(fam + sp + a.other),
    }
}

/// What a join's areas give: the first error, or the bank they lay out.
pub open spec fn joined_to(r: Result<Raw>, a: ToneBankView, b: ToneBankView, steps: Result<JoinView>) -> bool {
    match steps {
        Err(e) => r == Err::<Raw, Error>(e),
        Ok(st) => match join_pieces(a, b, st) {
            Err(e) => r == Err::<Raw, Error>(e),
            Ok(ps) => svz_outcome(r, a.preamble, a.order, ps),
        },
    }
}

/// Whether `r` is what joining `b` into `a` gives, whichever renumbered records the join writes
/// (they can only be one thing).
pub open spec fn join_outcome(r: Result<Raw>, a: ToneBankView, b: ToneBankView) -> bool {
    let tones = tone_list(a, b);
    &&& forall|firsts: Seq<Seq<u8>>|
        #[trigger] join_steps(a, b, tones, firsts, tones.len() as int).1 ==> joined_to(
            r,
            a,
            b,
            join_steps(a, b, tones, firsts, tones.len() as int).0,
        )
    &&& exists|firsts: Seq<Seq<u8>>| #[trigger] join_steps(a, b, tones, firsts, tones.len() as int).1
}

/// Any two lists of renumbered records a join accepts give the same join.
pub proof fn lemma_join_firsts(
    a: ToneBankView,
    b: ToneBankView,
    tones: Seq<(bool, int)>,
    f1: Seq<Seq<u8>>,
    f2: Seq<Seq<u8>>,
    n: int,
)
    requires
        join_steps(a, b, tones, f1, n).1,
        join_steps(a, b, tones, f2, n).1,
    ensures
        join_steps(a, b, tones, f1, n).0 == join_steps(a, b, tones, f2, n).0,
    decreases n,
{
    if n > 0 {
        lemma_join_firsts(a, b, tones, f1, f2, n - 1);
        let p1 = join_steps(a, b, tones, f1, n - 1);
        if let Ok(st) = p1.0 {
            let x = if tones[n - 1].0 {
                b
            } else {
                a
            };
            let index = tones[n - 1].1;
            let entry = tone_entry(x.family, index);
            if !st.entries.contains(entry) {
                let slots = samples_of(x, index);
                if let Ok((s2, m)) = slot_steps(x, st, slots, slots.len() as int) {
                    if slots.len() > 0 {
                        crate::container::lemma_remapped_unique(entry[0], f1[n - 1], f2[n - 1], m);
                    }
                }
            }
        }
    }
}

/// One accepted list of renumbered records settles the outcome for all of them.
proof fn lemma_join_outcome(r: Result<Raw>, a: ToneBankView, b: ToneBankView, fs: Seq<Seq<u8>>)
    requires
        join_steps(a, b, tone_list(a, b), fs, tone_list(a, b).len() as int).1,
        joined_to(r, a, b, join_steps(a, b, tone_list(a, b), fs, tone_list(a, b).len() as int).0),
    ensures
        join_outcome(r, a, b),
{
    let tones = tone_list(a, b);
    assert forall|f2: Seq<Seq<u8>>| #[trigger] join_steps(a, b, tones, f2, tones.len() as int).1 implies joined_to(
        r,
        a,
        b,
        join_steps(a, b, tones, f2, tones.len() as int).0,
    ) by {
        lemma_join_firsts(a, b, tones, fs, f2, tones.len() as int);
    }
}

/// A join in progress.
pub struct JoinState {
    pub entries: Vec<Vec<Vec<u8>>>,
    pub infos: Vec<Vec<Vec<u8>>>,
    pub waves: Vec<Waveform>,
    pub slot_records: Vec<Vec<u8>>,
    pub slot_info: Vec<Vec<u8>>,
}

impl View for JoinState {
    type V = JoinView;

    open spec fn view(&self) -> JoinView {
        JoinView {
            entries: self.entries@.map_values(|e: Vec<Vec<u8>>| entry_view(e)),
            infos: self.infos@.map_values(|e: Vec<Vec<u8>>| entry_view(e)),
            waves: waves_view(self.waves@),
            slot_records: self.slot_records@.map_values(|r: Vec<u8>| r@),
            slot_info: self.slot_info@.map_values(|r: Vec<u8>| r@),
        }
    }
}

/// Whether `entries` holds `e`.
fn holds(entries: &Vec<Vec<Vec<u8>>>, e: &Vec<Vec<u8>>) -> (r: bool)
    ensures
        r == entries@.map_values(|x: Vec<Vec<u8>>| entry_view(x)).contains(entry_view(*e)),
{
    let ghost es = entries@.map_values(|x: Vec<Vec<u8>>| entry_view(x));
    let mut i: usize = 0;
    while i < entries.len()
        invariant
            i <= entries@.len(),
            es == entries@.map_values(|x: Vec<Vec<u8>>| entry_view(x)),
            forall|j: int| 0 <= j < i ==> es[j] != entry_view(*e),
        decreases entries@.len() - i,
    {
        if same_entry(&entries[i], e) {
            assert(es[i as int] == entry_view(*e));
            return true;
        }
        i = i + 1;
    }
    false
}

proof fn lemma_first_audio_prefix(ws: Seq<Wave>, bytes: Seq<u8>, n: int)
    requires
        0 < n <= ws.len(),
        first_audio(ws.subrange(0, n), bytes) == Some(n - 1),
    ensures
        first_audio(ws, bytes) == Some(n - 1),
    decreases ws.len(),
{
    if ws.len() > n {
        assert(ws.drop_last().subrange(0, n) =~= ws.subrange(0, n));
        lemma_first_audio_prefix(ws.drop_last(), bytes, n);
    } else {
        assert(ws.subrange(0, n) =~= ws);
    }
}

/// The first joined sample whose audio is `bytes`.
fn find_audio(waves: &Vec<Waveform>, bytes: &[u8]) -> (r: Option<usize>)
    ensures
        r matches Some(x) ==> x < waves@.len() && first_audio(waves_view(waves@), bytes@) == Some(x as int),
        match first_audio(waves_view(waves@), bytes@) {
            Some(j) => r == Some(j as usize) && j < waves@.len(),
            None => r is None,
        },
{
    let ghost ws = waves_view(waves@);
    let mut j: usize = 0;
    while j < waves.len()
        invariant
            j <= waves@.len(),
            ws == waves_view(waves@),
            first_audio(ws.subrange(0, j as int), bytes@) is None,
        decreases waves@.len() - j,
    {
        assert(ws.subrange(0, j + 1).drop_last() =~= ws.subrange(0, j as int));
        if bytes_equal(waves[j].bytes.as_slice(), bytes) {
            proof {
                lemma_first_audio_prefix(ws, bytes@, j + 1);
            }
            return Some(j);
        }
        j = j + 1;
    }
    assert(ws.subrange(0, j as int) =~= ws);
    None
}

/// The first waveform of slot `slot`.
fn wave_of(waves: &Vec<Waveform>, slot: usize) -> (r: Option<usize>)
    ensures
        r matches Some(x) ==> x < waves@.len() && first_wave(waves_view(waves@), slot as int) == Some(x as int),
        match first_wave(waves_view(waves@), slot as int) {
            Some(j) => r == Some(j as usize) && j < waves@.len(),
            None => r is None,
        },
{
    let ghost ws = waves_view(waves@);
    let mut j: usize = 0;
    while j < waves.len()
        invariant
            j <= waves@.len(),
            ws == waves_view(waves@),
            first_wave(ws.subrange(0, j as int), slot as int) is None,
        decreases waves@.len() - j,
    {
        assert(ws.subrange(0, j + 1).drop_last() =~= ws.subrange(0, j as int));
        if waves[j].slot as usize == slot {
            proof {
                lemma_wave_prefix(ws, slot as int, j + 1);
            }
            return Some(j);
        }
        j = j + 1;
    }
    assert(ws.subrange(0, j as int) =~= ws);
    None
}

proof fn lemma_wave_prefix(ws: Seq<Wave>, slot: int, n: int)
    requires
        0 < n <= ws.len(),
        first_wave(ws.subrange(0, n), slot) == Some(n - 1),
    ensures
        first_wave(ws, slot) == Some(n - 1),
    decreases ws.len(),
{
    if ws.len() > n {
        assert(ws.drop_last().subrange(0, n) =~= ws.subrange(0, n));
        lemma_wave_prefix(ws.drop_last(), slot, n);
    } else {
        assert(ws.subrange(0, n) =~= ws);
    }
}

/// Carry sample slot `s` of bank `x` into the join.
fn carry_slot(x: &ToneBank, st: &mut JoinState, remap: &mut BTreeMap<u16, u16>, s: u16) -> (r: Result<()>)
    requires
        bank_wf(x@),
        s != 0,
    ensures
        match slot_step(x@, old(st)@, old(remap)@, s) {
            Ok((s2, m)) => r is Ok && final(st)@ == s2 && final(remap)@ == m,
            Err(e) => r == Err::<(), Error>(e),
        },
{
    let src = (s - 1) as usize;
    let j = match wave_of(&x.waveforms, src) {
        Some(j) => j,
        None => {
            return Err(Error::NoWaveform { slot: src });
        },
    };
    let w = &x.waveforms[j];
    assert(x@.waves[j as int] == (w.slot, w.word, w.bytes@));
    match find_audio(&st.waves, w.bytes.as_slice()) {
        Some(i) => {
            remap.insert(s, (i as u128 + 1) as u16);
            Ok(())
        },
        None => {
            let l = match &x.slots {
                Some(l) => l,
                None => {
                    return Err(Error::SampledWithoutSlots);
                },
            };
            if src >= l.records.len() {
                return Err(Error::AreaRecordOutOfRange { tag: l.tag, index: src, count: l.records.len() });
            }
            assert(loaded_wf(l@));
            assert(l@.records[src as int] == l.records@[src as int]@);
            assert(l@.info[src as int] == l.info@[src as int]@);
            let n = st.waves.len();
            let ghost before = st@;
            let r = &l.records[src];
            let rc = copy_range(r.as_slice(), 0, r.len());
            assert(rc@ =~= r@);
            st.slot_records.push(rc);
            let inf = &l.info[src];
            let ic = copy_range(inf.as_slice(), 0, inf.len());
            assert(ic@ =~= inf@);
            st.slot_info.push(ic);
            let bytes = copy_range(w.bytes.as_slice(), 0, w.bytes.len());
            assert(bytes@ =~= w.bytes@);
            st.waves.push(Waveform { slot: n as u32, word: w.word, bytes });
            remap.insert(s, (n as u128 + 1) as u16);
            assert(st@.slot_records =~= before.slot_records.push(l@.records[src as int]));
            assert(st@.slot_info =~= before.slot_info.push(l@.info[src as int]));
            assert(st@.waves =~= before.waves.push((n as u32, w.word, w.bytes@)));
            assert(st@.entries =~= before.entries);
            assert(st@.infos =~= before.infos);
            Ok(())
        },
    }
}

proof fn lemma_slot_steps_err(x: ToneBankView, st: JoinView, slots: Seq<u16>, k: int, n: int)
    requires
        0 <= k <= n,
        slot_steps(x, st, slots, k) is Err,
    ensures
        slot_steps(x, st, slots, n) == slot_steps(x, st, slots, k),
    decreases n - k,
{
    if k < n {
        lemma_slot_steps_err(x, st, slots, k, n - 1);
    }
}


/// Whether every joined tone has a record and an info word per engine area.
pub open spec fn join_wf(st: JoinView, n: nat) -> bool {
    &&& st.entries.len() == st.infos.len()
    &&& st.slot_records.len() == st.slot_info.len()
    &&& forall|j: int| 0 <= j < st.entries.len() ==> (#[trigger] st.entries[j]).len() == n
    &&& forall|j: int| 0 <= j < st.infos.len() ==> (#[trigger] st.infos[j]).len() == n
}

/// Join tone `index` of `x`, giving the record written for its own area.
fn join_tone(x: &ToneBank, st: &mut JoinState, index: usize) -> (r: (Result<()>, Ghost<Seq<u8>>))
    requires
        bank_wf(x@),
        index < x@.family[0].records.len(),
        join_wf(old(st)@, x@.family.len()),
    ensures
        tone_step(x@, old(st)@, index as int, r.1@).1,
        match tone_step(x@, old(st)@, index as int, r.1@).0 {
            Ok(s2) => r.0 is Ok && final(st)@ == s2 && join_wf(s2, x@.family.len()),
            Err(e) => r.0 == Err::<(), Error>(e),
        },
{
    let ghost fam = x@.family;
    let mut entry: Vec<Vec<u8>> = Vec::new();
    let mut info: Vec<Vec<u8>> = Vec::new();
    let mut p: usize = 0;
    while p < x.family.len()
        invariant
            p <= x.family@.len(),
            bank_wf(x@),
            fam == x@.family,
            index < fam[0].records.len(),
            entry@.len() == p,
            info@.len() == p,
            forall|q: int| 0 <= q < p ==> (#[trigger] entry@[q])@ == fam[q].records[index as int],
            forall|q: int| 0 <= q < p ==> (#[trigger] info@[q])@ == fam[q].info[index as int],
        decreases x.family@.len() - p,
    {
        let l = &x.family[p];
        assert(l@ == fam[p as int]);
        assert(fam[p as int].records.len() == fam[0].records.len());
        assert(l@.records[index as int] == l.records@[index as int]@);
        assert(l@.info[index as int] == l.info@[index as int]@);
        let r = &l.records[index];
        let rc = copy_range(r.as_slice(), 0, r.len());
        assert(rc@ =~= r@);
        entry.push(rc);
        let w = &l.info[index];
        let wc = copy_range(w.as_slice(), 0, w.len());
        assert(wc@ =~= w@);
        info.push(wc);
        p = p + 1;
    }
    assert(entry_view(entry) =~= tone_entry(fam, index as int));
    assert(entry_view(info) =~= tone_info(fam, index as int));
    if holds(&st.entries, &entry) {
        return (Ok(()), Ghost(Seq::empty()));
    }
    let slots = slots_played(x, index);
    proof {
        assert(x@.row == 0 ==> slots@ == pat_slots_of(x@, index as int));
        if x@.row == 0 {
            lemma_pat_slots_nonzero(x@.family[0].records[index as int], PARTIAL_COUNT as nat);
        }
    }
    let ghost st0 = st@;
    let mut remap: BTreeMap<u16, u16> = BTreeMap::new();
    let mut k: usize = 0;
    while k < slots.len()
        invariant
            k <= slots@.len(),
            bank_wf(x@),
            st0 == old(st)@,
            index < x@.family[0].records.len(),
            !st0.entries.contains(tone_entry(x@.family, index as int)),
            slots@ == samples_of(x@, index as int),
            forall|i: int| 0 <= i < slots@.len() ==> #[trigger] slots@[i] != 0,
            slot_steps(x@, st0, slots@, k as int) == Ok::<(JoinView, Map<u16, u16>), Error>(
                (st@, remap@),
            ),
            join_wf(st@, x@.family.len()),
        decreases slots@.len() - k,
    {
        let ghost before = st@;
        match carry_slot(x, st, &mut remap, slots[k]) {
            Ok(()) => {},
            Err(e) => {
                proof {
                    lemma_slot_steps_err(x@, st0, slots@, k + 1, slots@.len() as int);
                }
                return (Err(e), Ghost(Seq::empty()));
            },
        }
        assert(st@.entries == before.entries);
        k = k + 1;
    }
    let ghost orig_first = entry@[0]@;
    let mut first = copy_range(entry[0].as_slice(), 0, entry[0].len());
    assert(first@ =~= orig_first);
    if slots.len() > 0 {
        let pat = tag_of(0x50, 0x41, 0x54, 0x61);
        assert(pat@ =~= pata());
        remap_sample_slots_of(&pat, first.as_mut_slice(), &remap);
    }
    let ghost first_view = first@;
    let mut written: Vec<Vec<u8>> = Vec::new();
    written.push(first);
    let mut q: usize = 1;
    while q < entry.len()
        invariant
            1 <= q <= entry@.len(),
            written@.len() == q,
            written@[0]@ == first_view,
            forall|j: int| 1 <= j < q ==> (#[trigger] written@[j])@ == entry@[j]@,
        decreases entry@.len() - q,
    {
        let c = copy_range(entry[q].as_slice(), 0, entry[q].len());
        assert(c@ =~= entry@[q as int]@);
        written.push(c);
        q = q + 1;
    }
    assert(entry_view(written) =~= entry_view(entry).update(0, first_view));
    let ghost mid = st@;
    st.entries.push(written);
    st.infos.push(info);
    assert(st@.entries =~= mid.entries.push(tone_entry(fam, index as int).update(0, first_view)));
    assert(st@.infos =~= mid.infos.push(tone_info(fam, index as int)));
    (Ok(()), Ghost(first_view))
}

/// The slots a ZEN-Core tone plays.
pub open spec fn pat_slots_of(x: ToneBankView, index: int) -> Seq<u16> {
    crate::container::pat::pat_slots(x.family[0].records[index], PARTIAL_COUNT as nat)
}


proof fn lemma_join_err(
    a: ToneBankView,
    b: ToneBankView,
    tones: Seq<(bool, int)>,
    firsts: Seq<Seq<u8>>,
    k: int,
    n: int,
)
    requires
        0 <= k <= n,
        join_steps(a, b, tones, firsts, k).0 is Err,
    ensures
        join_steps(a, b, tones, firsts, n) == join_steps(a, b, tones, firsts, k),
    decreases n - k,
{
    if k < n {
        lemma_join_err(a, b, tones, firsts, k, n - 1);
    }
}

proof fn lemma_join_prefix(
    a: ToneBankView,
    b: ToneBankView,
    tones: Seq<(bool, int)>,
    firsts: Seq<Seq<u8>>,
    f: Seq<u8>,
    n: int,
)
    requires
        0 <= n <= firsts.len(),
    ensures
        join_steps(a, b, tones, firsts.push(f), n) == join_steps(a, b, tones, firsts, n),
    decreases n,
{
    if n > 0 {
        lemma_join_prefix(a, b, tones, firsts, f, n - 1);
    }
}

/// Join every tone of `x` (the `bank`th of the two) into `st`.
fn join_bank(
    x: &ToneBank,
    st: &mut JoinState,
    Ghost(a): Ghost<ToneBankView>,
    Ghost(b): Ghost<ToneBankView>,
    Ghost(second): Ghost<bool>,
    Ghost(firsts): Ghost<Seq<Seq<u8>>>,
) -> (r: (Result<()>, Ghost<Seq<Seq<u8>>>))
    requires
        bank_wf(x@),
        x@ == (if second { b } else { a }),
        a.family.len() == x@.family.len(),
        join_wf(old(st)@, x@.family.len()),
        firsts.len() == (if second { a.family[0].records.len() } else { 0 }),
        join_steps(a, b, tone_list(a, b), firsts, firsts.len() as int) == (
            Ok::<JoinView, Error>(old(st)@),
            true,
        ),
    ensures
        r.1@.len() <= tone_list(a, b).len(),
        join_steps(a, b, tone_list(a, b), r.1@, r.1@.len() as int).1,
        match join_steps(a, b, tone_list(a, b), r.1@, r.1@.len() as int).0 {
            Ok(s2) => r.0 is Ok && final(st)@ == s2 && join_wf(s2, x@.family.len())
                && r.1@.len() == firsts.len() + x@.family[0].records.len(),
            Err(e) => r.0 == Err::<(), Error>(e),
        },
{
    let ghost tones = tone_list(a, b);
    let ghost mut fs = firsts;
    let n = x.family[0].records.len();
    assert(x@.family[0].records.len() == n);
    let mut i: usize = 0;
    while i < n
        invariant
            i <= n == x@.family[0].records.len(),
            bank_wf(x@),
            x@ == (if second { b } else { a }),
            a.family.len() == x@.family.len(),
            tones == tone_list(a, b),
            fs.len() == firsts.len() + i,
            firsts.len() == (if second { a.family[0].records.len() } else { 0 }),
            join_wf(st@, x@.family.len()),
            join_steps(a, b, tones, fs, fs.len() as int) == (Ok::<JoinView, Error>(st@), true),
        decreases n - i,
    {
        let ghost t = fs.len() as int;
        assert(tones[t] == (second, i as int));
        let (res, Ghost(f)) = join_tone(x, st, i);
        proof {
            lemma_join_prefix(a, b, tones, fs, f, t);
            fs = fs.push(f);
        }
        match res {
            Ok(()) => {},
            Err(e) => {
                return (Err(e), Ghost(fs));
            },
        }
        i = i + 1;
    }
    (Ok(()), Ghost(fs))
}


/// Records `p` of every joined tone.
fn column(entries: &Vec<Vec<Vec<u8>>>, p: usize) -> (r: Vec<Vec<u8>>)
    requires
        forall|j: int| 0 <= j < entries@.len() ==> p < (#[trigger] entries@[j])@.len(),
    ensures
        r@.map_values(|x: Vec<u8>| x@) == entries@.map_values(|e: Vec<Vec<u8>>| entry_view(e)).map_values(
            |e: Entry| e[p as int],
        ),
{
    let ghost want = entries@.map_values(|e: Vec<Vec<u8>>| entry_view(e)).map_values(|e: Entry| e[p as int]);
    let mut r: Vec<Vec<u8>> = Vec::new();
    let mut j: usize = 0;
    while j < entries.len()
        invariant
            j <= entries@.len(),
            forall|i: int| 0 <= i < entries@.len() ==> p < (#[trigger] entries@[i])@.len(),
            want == entries@.map_values(|e: Vec<Vec<u8>>| entry_view(e)).map_values(|e: Entry| e[p as int]),
            r@.len() == j,
            forall|i: int| 0 <= i < j ==> (#[trigger] r@[i])@ == want[i],
        decreases entries@.len() - j,
    {
        let e = &entries[j];
        assert(entry_view(*e)[p as int] == e@[p as int]@);
        let c = copy_range(e[p].as_slice(), 0, e[p].len());
        assert(c@ =~= e@[p as int]@);
        r.push(c);
        j = j + 1;
    }
    assert(r@.map_values(|x: Vec<u8>| x@) =~= want);
    r
}

/// Whether two banks carry the same samples in the same slots.
fn same_samples_of(a: &ToneBank, b: &ToneBank) -> (r: bool)
    ensures
        r == same_samples(a@, b@),
{
    let ghost (wa, wb) = (a@.waves, b@.waves);
    if a.waveforms.len() != b.waveforms.len() {
        return false;
    }
    let mut i: usize = 0;
    while i < a.waveforms.len()
        invariant
            i <= a.waveforms@.len() == b.waveforms@.len(),
            wa == a@.waves,
            wb == b@.waves,
            wa.len() == a.waveforms@.len(),
            wb.len() == b.waveforms@.len(),
            forall|j: int| 0 <= j < i ==> (#[trigger] wa[j]).0 == wb[j].0 && wa[j].2 == wb[j].2,
        decreases a.waveforms@.len() - i,
    {
        let x = &a.waveforms[i];
        let y = &b.waveforms[i];
        assert(wa[i as int] == (x.slot, x.word, x.bytes@));
        assert(wb[i as int] == (y.slot, y.word, y.bytes@));
        if x.slot != y.slot || !bytes_equal(x.bytes.as_slice(), y.bytes.as_slice()) {
            return false;
        }
        i = i + 1;
    }
    match (&a.slots, &b.slots) {
        (Some(x), Some(y)) => {
            assert(x@.records == entry_view(x.records));
            assert(y@.records == entry_view(y.records));
            same_entry(&x.records, &y.records)
        },
        (None, None) => true,
        _ => false,
    }
}

/// The bank whose samples a join of two undecoded banks carries whole, if either has any.
fn shared_bank<'a>(a: &'a ToneBank, b: &'a ToneBank) -> (r: Result<Option<&'a ToneBank>>)
    requires
        bank_wf(a@),
    ensures
        match shared_samples(a@, b@) {
            Err(e) => r == Err::<Option<&ToneBank>, Error>(e),
            Ok(None) => r matches Ok(None),
            Ok(Some(x)) => r matches Ok(Some(y)) && y@ == x && (y@ == a@ || y@ == b@),
        },
{
    let ca = a.slots.is_some() || a.waveforms.len() > 0;
    let cb = b.slots.is_some() || b.waveforms.len() > 0;
    if !ca && !cb {
        Ok(None)
    } else if ca && !cb {
        Ok(Some(a))
    } else if !ca && cb {
        Ok(Some(b))
    } else if same_samples_of(a, b) {
        Ok(Some(a))
    } else {
        let spec_row = area_at(a.row);
        proof {
            lemma_row_bytes(spec_row, a.row as int);
        }
        Err(Error::DifferentSamples { tag: spec_row.tag })
    }
}

/// Append the areas that carry bank `x`'s samples whole.
fn push_whole_samples(x: &ToneBank, areas: &mut Vec<AreaOut>)
    requires
        bank_wf(x@),
    ensures
        pieces_view(final(areas)@) == pieces_view(old(areas)@) + whole_samples(x@),
{
    let ghost before = pieces_view(areas@);
    let ghost mid = before;
    if let Some(l) = &x.slots {
        assert(loaded_wf(l@));
        let body = l.assemble(&l.records, &l.info);
        areas.push((l.tag, l.format, body));
        proof {
            mid = before.push((l.tag@, l.format@, area_of(l@, l@.records, l@.info)));
        }
        assert(pieces_view(areas@) =~= mid);
    }
    if x.waveforms.len() > 0 {
        let body = build_waveform_area(&x.waveforms);
        let usd = tag_of(0x55, 0x53, 0x44, 0x61);
        assert(usd@ =~= usda());
        let ghost m2 = pieces_view(areas@);
        areas.push((usd, x.waveform_format, body));
        assert(pieces_view(areas@) =~= m2.push((usda(), x@.wave_format@, wave_area(x@.waves))));
    }
    assert(pieces_view(areas@) =~= before + whole_samples(x@));
}

/// A bank holding every tone of `a` and then every tone of `b` that `a` does not already hold.
pub fn join(a: &ToneBank, b: &ToneBank) -> (r: Result<Raw>)
    requires
        bank_wf(a@),
        bank_wf(b@),
        a@.row == b@.row,
    ensures
        join_outcome(r, a@, b@),
{
    let ghost (av, bv) = (a@, b@);
    let ghost tones = tone_list(av, bv);
    let mut st = JoinState {
        entries: Vec::new(),
        infos: Vec::new(),
        waves: Vec::new(),
        slot_records: Vec::new(),
        slot_info: Vec::new(),
    };
    assert(st@.entries =~= empty_join().entries);
    assert(st@.infos =~= empty_join().infos);
    assert(st@.waves =~= empty_join().waves);
    assert(st@.slot_records =~= empty_join().slot_records);
    assert(st@.slot_info =~= empty_join().slot_info);
    let (res, Ghost(fs)) = join_bank(a, &mut st, Ghost(av), Ghost(bv), Ghost(false), Ghost(Seq::empty()));
    if let Err(e) = res {
        proof {
            lemma_join_err(av, bv, tones, fs, fs.len() as int, tones.len() as int);
            lemma_join_outcome(Err(e), av, bv, fs);
        }
        return Err(e);
    }
    let (res, Ghost(fs2)) = join_bank(b, &mut st, Ghost(av), Ghost(bv), Ghost(true), Ghost(fs));
    if let Err(e) = res {
        proof {
            lemma_join_err(av, bv, tones, fs2, fs2.len() as int, tones.len() as int);
            lemma_join_outcome(Err(e), av, bv, fs2);
        }
        return Err(e);
    }
    assert(fs2.len() == tones.len());
    let ghost sv = st@;
    assert(join_steps(av, bv, tones, fs2, tones.len() as int) == (Ok::<JoinView, Error>(sv), true));
    let mut areas: Vec<AreaOut> = Vec::new();
    let mut p: usize = 0;
    while p < a.family.len()
        invariant
            p <= a.family@.len() == av.family.len(),
            bank_wf(av),
            av == a@,
            sv == st@,
            join_wf(sv, av.family.len()),
            pieces_view(areas@) == join_fam(av, sv).subrange(0, p as int),
        decreases a.family@.len() - p,
    {
        let l = &a.family[p];
        assert(l@ == av.family[p as int]);
        assert forall|j: int| 0 <= j < st.entries@.len() implies p < (#[trigger] st.entries@[j])@.len() by {
            assert(sv.entries[j] == entry_view(st.entries@[j]));
        }
        assert forall|j: int| 0 <= j < st.infos@.len() implies p < (#[trigger] st.infos@[j])@.len() by {
            assert(sv.infos[j] == entry_view(st.infos@[j]));
        }
        let rows = column(&st.entries, p);
        let words = column(&st.infos, p);
        assert(rows@.len() == rows@.map_values(|x: Vec<u8>| x@).len());
        assert(words@.len() == words@.map_values(|x: Vec<u8>| x@).len());
        assert(sv.entries.len() == st.entries@.len() && sv.infos.len() == st.infos@.len());
        let body = l.assemble(&rows, &words);
        let ghost before = pieces_view(areas@);
        areas.push((l.tag, l.format, body));
        assert(pieces_view(areas@) =~= before.push(join_fam(av, sv)[p as int]));
        assert(pieces_view(areas@) =~= join_fam(av, sv).subrange(0, p + 1));
        p = p + 1;
    }
    assert(join_fam(av, sv).subrange(0, p as int) =~= join_fam(av, sv));
    let ghost fam_pieces = pieces_view(areas@);
    let ghost mut samples: Seq<Piece> = Seq::empty();
    if a.row != 0 {
        match shared_bank(a, b) {
            Err(e) => {
                assert(join_pieces(av, bv, sv) == Err::<Seq<Piece>, Error>(e));
                proof {
                    lemma_join_outcome(Err(e), av, bv, fs2);
                }
                return Err(e);
            },
            Ok(None) => {},
            Ok(Some(src)) => {
                push_whole_samples(src, &mut areas);
                proof {
                    samples = whole_samples(src@);
                }
            },
        }
    } else if st.waves.len() > 0 {
        let l = match &a.slots {
            Some(l) => l,
            None => match &b.slots {
                Some(l) => l,
                None => {
                    assert(join_pieces(av, bv, sv) == Err::<Seq<Piece>, Error>(Error::MergedWithoutSlots));
                    proof {
                        lemma_join_outcome(Err(Error::MergedWithoutSlots), av, bv, fs2);
                    }
                    return Err(Error::MergedWithoutSlots);
                },
            },
        };
        let body = l.assemble(&st.slot_records, &st.slot_info);
        areas.push((l.tag, l.format, body));
        let wbody = build_waveform_area(&st.waves);
        let usd = tag_of(0x55, 0x53, 0x44, 0x61);
        assert(usd@ =~= usda());
        areas.push((usd, a.waveform_format, wbody));
        proof {
            samples = seq![
                (l.tag@, l.format@, area_of(l@, sv.slot_records, sv.slot_info)),
                (usda(), av.wave_format@, wave_area(sv.waves)),
            ];
        }
        assert(pieces_view(areas@) =~= fam_pieces + samples);
    } else {
        assert(pieces_view(areas@) =~= fam_pieces + samples);
    }
    assert(pieces_view(areas@) =~= fam_pieces + samples);
    let ghost mid = pieces_view(areas@);
    let mut j: usize = 0;
    while j < a.other.len()
        invariant
            j <= a.other@.len(),
            pieces_view(areas@) == mid + pieces_view(a.other@).subrange(0, j as int),
        decreases a.other@.len() - j,
    {
        let o = &a.other[j];
        let body = copy_range(o.2.as_slice(), 0, o.2.len());
        assert(body@ =~= o.2@);
        let ghost before = pieces_view(areas@);
        areas.push((o.0, o.1, body));
        assert(pieces_view(areas@) =~= before.push(pieces_view(a.other@)[j as int]));
        j = j + 1;
        assert(pieces_view(areas@) =~= mid + pieces_view(a.other@).subrange(0, j as int));
    }
    assert(pieces_view(a.other@).subrange(0, j as int) =~= av.other);
    assert(join_pieces(av, bv, sv) == Ok::<Seq<Piece>, Error>(pieces_view(areas@)));
    let r = assemble(&a.preamble, &a.order, &areas);
    assert(join_steps(av, bv, tones, fs2, tones.len() as int).1);
    proof {
        lemma_join_outcome(r, av, bv, fs2);
    }
    r
}

} // verus!

verus! {

/// The join state that holds exactly the first `k` tones of bank `a`, nothing else.
pub open spec fn own_tones(a: ToneBankView, k: int) -> JoinView {
    JoinView {
        entries: Seq::new(k as nat, |i: int| tone_entry(a.family, i)),
        infos: Seq::new(k as nat, |i: int| tone_info(a.family, i)),
        waves: Seq::empty(),
        slot_records: Seq::empty(),
        slot_info: Seq::empty(),
    }
}

/// Whether bank `a` has engine areas, plays no user samples, and holds no tone twice.
pub open spec fn plain_distinct(a: ToneBankView) -> bool {
    &&& a.family.len() > 0
    &&& forall|i: int| 0 <= i < a.family[0].records.len() ==> #[trigger] samples_of(a, i).len() == 0
    &&& forall|i: int, j: int|
        0 <= i < j < a.family[0].records.len() ==> tone_entry(a.family, i) != tone_entry(a.family, j)
}

proof fn lemma_join_self(a: ToneBankView, firsts: Seq<Seq<u8>>, k: int)
    requires
        plain_distinct(a),
        0 <= k <= 2 * a.family[0].records.len(),
        join_steps(a, a, tone_list(a, a), firsts, k).1,
    ensures
        join_steps(a, a, tone_list(a, a), firsts, k).0 == Ok::<JoinView, Error>(
            own_tones(a, if k < a.family[0].records.len() { k } else { a.family[0].records.len() as int }),
        ),
    decreases k,
{
    let n = a.family[0].records.len() as int;
    let tones = tone_list(a, a);
    if k == 0 {
        assert(own_tones(a, 0).entries =~= Seq::<Entry>::empty());
        assert(own_tones(a, 0).infos =~= Seq::<Entry>::empty());
    } else {
        lemma_join_self(a, firsts, k - 1);
        let prev = if k - 1 < n { k - 1 } else { n };
        let st = own_tones(a, prev);
        if k - 1 < n {
            assert(tones[k - 1] == (false, k - 1));
            let entry = tone_entry(a.family, k - 1);
            assert(!st.entries.contains(entry)) by {
                if st.entries.contains(entry) {
                    let i = choose|i: int| 0 <= i < st.entries.len() && st.entries[i] == entry;
                    assert(st.entries[i] == tone_entry(a.family, i));
                }
            }
            assert(samples_of(a, k - 1).len() == 0);
            let first = firsts[k - 1];
            assert(first == entry[0]);
            assert(entry.update(0, first) =~= entry);
            assert(st.entries.push(entry.update(0, first)) =~= own_tones(a, k).entries);
            assert(st.infos.push(tone_info(a.family, k - 1)) =~= own_tones(a, k).infos);
        } else {
            assert(tones[k - 1] == (true, k - 1 - n));
            let entry = tone_entry(a.family, k - 1 - n);
            assert(st.entries[k - 1 - n] == entry);
        }
    }
}

/// Joining a bank that plays no user samples and holds no tone twice with itself leaves exactly
/// its own tones, in order, and nothing more.
pub proof fn law_join_with_itself(a: ToneBankView, firsts: Seq<Seq<u8>>)
    requires
        plain_distinct(a),
        join_steps(a, a, tone_list(a, a), firsts, tone_list(a, a).len() as int).1,
    ensures
        join_steps(a, a, tone_list(a, a), firsts, tone_list(a, a).len() as int).0 == Ok::<JoinView, Error>(
            own_tones(a, a.family[0].records.len() as int),
        ),
{
    lemma_join_self(a, firsts, tone_list(a, a).len() as int);
}

} // verus!
