//! Walking scenes and bundled records to collect what they need, deduplicating as it goes.
//!
//! The walk is a fold: every step takes the closure so far and one zone, one bundled tone or one
//! sample reference, and gives the closure after it. Each step below is stated twice, once over
//! plain values (what the closure *is*) and once as the code that keeps it.

use vstd::prelude::*;

use crate::address::{
    row_with_tag, spec_for_tag, resolve, bank_row, is_row, record_index, row_tag, row_type, tag4, AreaSpec, AREA_COUNT,
};
use crate::bytes::{le32, same_tag, tag_of};
use crate::codec::{
    bundled, decodes_scene, is_placeholder, is_placeholder_name, prfa_tag, prfa_tag_value,
    prfa, present_zones, read_bundled_tones, ZONE_COUNT, read_scenes, record_end, scene_area, scenes_in, BundledTone,
};
use crate::container::svd::{envelope_error, parses_as};
use crate::{Error, Result};
use crate::container::records::{data_start, table_error, whole_records};
use crate::container::svd::{first_area, fits};
use crate::container::sample::{
    area_body_of, edited_in, first_stop, head_len, listed_in, multisamples_read, record_of_body,
    table_body_of,
};
use crate::container::records::HEADER_LEN;
use crate::container::{
    read_samples, record_slots, sample_slots_of, Area, Multisample, Raw, RecordTable, SampleBank, SampleData,
    SampleSlot, Svd,
};
use crate::address::name_field;
use crate::text::field_text;
use crate::requirements::{HeldSlot, Inventory, Requirements};
use crate::role::{of as role_of_raw, role_of};
use crate::model::{bank_label, state_of, KeyboardGroup, Scene, ToneAddress, ToneRef, ToneType, Zone, ZoneState};
use crate::requirements::{str_equal, BankRequirement, SlotRequirement, ToneRequirement};
use crate::text::push_str;
use crate::text::utf8_lossy;

verus! {

/// Text that may be absent, by its characters.
pub open spec fn opt_text(o: Option<String>) -> Option<Seq<char>> {
    match o {
        Some(s) => Some(s@),
        None => None,
    }
}

/// A user tone record, as the closure keeps it: ordered by the area's tag (read as a big-endian
/// number) and then by index.
pub struct ToneNeed {
    pub code: int,
    pub index: usize,
    pub area: Seq<char>,
    pub engine: ToneType,
    pub name: Option<Seq<char>>,
    pub address: ToneAddress,
    pub present: bool,
}

/// A bank of the instrument's own content, as the closure keeps it.
pub struct BankNeed {
    pub engine: ToneType,
    pub bank: Option<Seq<char>>,
    pub tone: Option<Seq<char>>,
    pub address: ToneAddress,
}

/// A user sample slot, as the closure keeps it.
pub struct SlotNeed {
    pub slot: u16,
    pub name: Option<Seq<char>>,
    pub carried: bool,
    pub silent: bool,
    pub played_by: Seq<Seq<char>>,
}

/// The closure so far.
pub struct ScanView {
    pub engines: Seq<ToneType>,
    pub tones: Seq<ToneNeed>,
    pub banks: Seq<BankNeed>,
    pub samples: Seq<SlotNeed>,
    pub unclassified: Seq<ToneAddress>,
    /// Records already followed, by area tag and index.
    pub followed: Seq<(Seq<u8>, usize)>,
}

/// Nothing collected yet.
pub open spec fn empty_scan() -> ScanView {
    ScanView {
        engines: Seq::empty(),
        tones: Seq::empty(),
        banks: Seq::empty(),
        samples: Seq::empty(),
        unclassified: Seq::empty(),
        followed: Seq::empty(),
    }
}

pub open spec fn bank_need(b: BankRequirement) -> BankNeed {
    BankNeed { engine: b.engine, bank: opt_text(b.bank), tone: opt_text(b.tone), address: b.address }
}

pub open spec fn slot_need(s: SlotRequirement) -> SlotNeed {
    SlotNeed {
        slot: s.slot,
        name: opt_text(s.name),
        carried: s.carried,
        silent: s.silent,
        played_by: s.played_by@.map_values(|p: String| p@),
    }
}

pub open spec fn tone_need(code: u32, t: ToneRequirement) -> ToneNeed {
    ToneNeed {
        code: code as int,
        index: t.index,
        area: t.area@,
        engine: t.engine,
        name: opt_text(t.name),
        address: t.address,
        present: t.present,
    }
}

/// `e` added to `es` unless it is there.
pub open spec fn add_once<T>(es: Seq<T>, e: T) -> Seq<T> {
    if es.contains(e) {
        es
    } else {
        es.push(e)
    }
}

/// A player's name noted against a slot: once, and never an empty name.
pub open spec fn note(players: Seq<Seq<char>>, name: Seq<char>) -> Seq<Seq<char>> {
    if name.len() == 0 || players.contains(name) {
        players
    } else {
        players.push(name)
    }
}

/// Whether tone `a` sorts before tone `b`.
pub open spec fn tone_before(a: ToneNeed, b: ToneNeed) -> bool {
    a.code < b.code || (a.code == b.code && a.index < b.index)
}

/// Whether the tones are in strictly increasing order.
pub open spec fn tones_sorted(ts: Seq<ToneNeed>) -> bool {
    forall|i: int, j: int| 0 <= i < j < ts.len() ==> tone_before(#[trigger] ts[i], #[trigger] ts[j])
}

/// `t` placed among sorted `ts` where it belongs.
pub open spec fn insert_tone(ts: Seq<ToneNeed>, t: ToneNeed) -> Seq<ToneNeed>
    decreases ts.len(),
{
    if ts.len() == 0 {
        seq![t]
    } else if tone_before(ts.last(), t) {
        ts.push(t)
    } else {
        insert_tone(ts.drop_last(), t).push(ts.last())
    }
}

/// Whether a tone with `t`'s area and index is among `ts`.
pub open spec fn has_tone(ts: Seq<ToneNeed>, t: ToneNeed) -> bool {
    exists|i: int| 0 <= i < ts.len() && (#[trigger] ts[i]).code == t.code && ts[i].index == t.index
}

/// `t` added to the tones unless one with its area and index is there.
pub open spec fn add_tone(ts: Seq<ToneNeed>, t: ToneNeed) -> Seq<ToneNeed> {
    if has_tone(ts, t) {
        ts
    } else {
        insert_tone(ts, t)
    }
}

/// Whether the slots are in strictly increasing order of number.
pub open spec fn slots_sorted(ss: Seq<SlotNeed>) -> bool {
    forall|i: int, j: int| 0 <= i < j < ss.len() ==> (#[trigger] ss[i]).slot < (#[trigger] ss[j]).slot
}

/// `n` placed among sorted `ss` where it belongs.
pub open spec fn insert_slot(ss: Seq<SlotNeed>, n: SlotNeed) -> Seq<SlotNeed>
    decreases ss.len(),
{
    if ss.len() == 0 {
        seq![n]
    } else if ss.last().slot < n.slot {
        ss.push(n)
    } else {
        insert_slot(ss.drop_last(), n).push(ss.last())
    }
}

/// Where slot `slot` is among `ss`, if it is there.
pub open spec fn slot_pos(ss: Seq<SlotNeed>, slot: u16) -> Option<int>
    decreases ss.len(),
{
    if ss.len() == 0 {
        None
    } else {
        match slot_pos(ss.drop_last(), slot) {
            Some(i) => Some(i),
            None => if ss.last().slot == slot {
                Some(ss.len() - 1)
            } else {
                None
            },
        }
    }
}

/// Whether the collected state is consistent: tones and slots in order, and nothing listed twice.
pub open spec fn scan_wf(v: ScanView) -> bool {
    &&& tones_sorted(v.tones)
    &&& slots_sorted(v.samples)
    &&& v.engines.no_duplicates()
    &&& v.banks.no_duplicates()
    &&& v.unclassified.no_duplicates()
}

/// Adding what is not there keeps a list free of duplicates.
pub proof fn lemma_add_once<T>(es: Seq<T>, e: T)
    requires
        es.no_duplicates(),
    ensures
        add_once(es, e).no_duplicates(),
{
    if !es.contains(e) {
        let r = es.push(e);
        assert forall|i: int, j: int| 0 <= i < r.len() && 0 <= j < r.len() && i != j implies r[i] != r[j] by {
            if i < es.len() && j < es.len() {
                assert(r[i] == es[i] && r[j] == es[j]);
            } else if i < es.len() {
                assert(r[i] == es[i]);
                assert(es.contains(r[i]));
            } else {
                assert(r[j] == es[j]);
                assert(es.contains(r[j]));
            }
        }
    }
}

/// The tones in `ts` before position `p` sort before `t`, the rest after it.
pub proof fn lemma_insert_tone(ts: Seq<ToneNeed>, t: ToneNeed, p: int)
    requires
        tones_sorted(ts),
        0 <= p <= ts.len(),
        forall|i: int| 0 <= i < p ==> tone_before(#[trigger] ts[i], t),
        forall|i: int| p <= i < ts.len() ==> tone_before(t, #[trigger] ts[i]),
    ensures
        insert_tone(ts, t) == ts.insert(p, t),
        tones_sorted(ts.insert(p, t)),
    decreases ts.len(),
{
    if ts.len() == 0 {
        assert(ts.insert(p, t) =~= seq![t]);
    } else if tone_before(ts.last(), t) {
        if p < ts.len() {
            assert(tone_before(t, ts[ts.len() - 1]));
        }
        assert(ts.insert(p, t) =~= ts.push(t));
    } else {
        let d = ts.drop_last();
        if p == ts.len() {
            assert(tone_before(ts[ts.len() - 1], t));
        }
        assert forall|i: int, j: int| 0 <= i < j < d.len() implies tone_before(#[trigger] d[i], #[trigger] d[j]) by {
            assert(d[i] == ts[i] && d[j] == ts[j]);
        }
        assert forall|i: int| 0 <= i < p implies tone_before(#[trigger] d[i], t) by {
            assert(d[i] == ts[i]);
        }
        assert forall|i: int| p <= i < d.len() implies tone_before(t, #[trigger] d[i]) by {
            assert(d[i] == ts[i]);
        }
        lemma_insert_tone(d, t, p);
        assert(ts.insert(p, t) =~= d.insert(p, t).push(ts.last()));
    }
    let r = ts.insert(p, t);
    assert forall|i: int, j: int| 0 <= i < j < r.len() implies tone_before(#[trigger] r[i], #[trigger] r[j]) by {
        if j < p {
            assert(r[i] == ts[i] && r[j] == ts[j]);
        } else if j == p {
            assert(r[i] == ts[i]);
        } else if i < p {
            assert(r[i] == ts[i] && r[j] == ts[j - 1]);
            assert(tone_before(t, ts[j - 1]));
        } else if i == p {
            assert(r[j] == ts[j - 1]);
        } else {
            assert(r[i] == ts[i - 1] && r[j] == ts[j - 1]);
        }
    }
}

/// The slots in `ss` before position `p` are numbered below `n`, the rest above it.
pub proof fn lemma_insert_slot(ss: Seq<SlotNeed>, n: SlotNeed, p: int)
    requires
        slots_sorted(ss),
        0 <= p <= ss.len(),
        forall|i: int| 0 <= i < p ==> (#[trigger] ss[i]).slot < n.slot,
        forall|i: int| p <= i < ss.len() ==> n.slot < (#[trigger] ss[i]).slot,
    ensures
        insert_slot(ss, n) == ss.insert(p, n),
        slots_sorted(ss.insert(p, n)),
    decreases ss.len(),
{
    if ss.len() == 0 {
        assert(ss.insert(p, n) =~= seq![n]);
    } else if ss.last().slot < n.slot {
        if p < ss.len() {
            assert(n.slot < ss[ss.len() - 1].slot);
        }
        assert(ss.insert(p, n) =~= ss.push(n));
    } else {
        let d = ss.drop_last();
        if p == ss.len() {
            assert(ss[ss.len() - 1].slot < n.slot);
        }
        assert forall|i: int, j: int| 0 <= i < j < d.len() implies (#[trigger] d[i]).slot < (#[trigger] d[j]).slot by {
            assert(d[i] == ss[i] && d[j] == ss[j]);
        }
        assert forall|i: int| 0 <= i < p implies (#[trigger] d[i]).slot < n.slot by {
            assert(d[i] == ss[i]);
        }
        assert forall|i: int| p <= i < d.len() implies n.slot < (#[trigger] d[i]).slot by {
            assert(d[i] == ss[i]);
        }
        lemma_insert_slot(d, n, p);
        assert(ss.insert(p, n) =~= d.insert(p, n).push(ss.last()));
    }
    let r = ss.insert(p, n);
    assert forall|i: int, j: int| 0 <= i < j < r.len() implies (#[trigger] r[i]).slot < (#[trigger] r[j]).slot by {
        if j < p {
            assert(r[i] == ss[i] && r[j] == ss[j]);
        } else if j == p {
            assert(r[i] == ss[i]);
        } else if i < p {
            assert(r[i] == ss[i] && r[j] == ss[j - 1]);
        } else if i == p {
            assert(r[j] == ss[j - 1]);
        } else {
            assert(r[i] == ss[i - 1] && r[j] == ss[j - 1]);
        }
    }
}

/// In sorted slots, the one numbered `slot` is found where it stands.
pub proof fn lemma_slot_pos(ss: Seq<SlotNeed>, slot: u16, k: int)
    requires
        slots_sorted(ss),
        0 <= k < ss.len(),
        ss[k].slot == slot,
    ensures
        slot_pos(ss, slot) == Some(k),
    decreases ss.len(),
{
    if k < ss.len() - 1 {
        let d = ss.drop_last();
        assert(d[k] == ss[k]);
        assert forall|i: int, j: int| 0 <= i < j < d.len() implies (#[trigger] d[i]).slot < (#[trigger] d[j]).slot by {
            assert(d[i] == ss[i] && d[j] == ss[j]);
        }
        lemma_slot_pos(d, slot, k);
    } else {
        lemma_slot_pos_none(ss.drop_last(), slot);
    }
}

/// A slot numbered above every slot of `ss` is not found there.
pub proof fn lemma_slot_pos_none(ss: Seq<SlotNeed>, slot: u16)
    requires
        forall|i: int| 0 <= i < ss.len() ==> (#[trigger] ss[i]).slot != slot,
    ensures
        slot_pos(ss, slot) is None,
    decreases ss.len(),
{
    if ss.len() > 0 {
        let d = ss.drop_last();
        assert forall|i: int| 0 <= i < d.len() implies (#[trigger] d[i]).slot != slot by {
            assert(d[i] == ss[i]);
        }
        lemma_slot_pos_none(d, slot);
    }
}


/// What the walk reads besides the material itself: the file, and the sample bank read from it.
pub struct ScanCtx {
    pub s: Seq<u8>,
    pub areas: Seq<Area>,
    /// The named sample slots the file holds: index (from 0) and name.
    pub held: Seq<(usize, Seq<char>)>,
    /// The slots (from 0) whose audio the file carries.
    pub audio: Seq<u32>,
}

/// Record `index` of the area tagged `tag`: present when the file has that area, it lies inside
/// the file, reads as a record table, and holds that many whole records.
pub open spec fn record_in(s: Seq<u8>, areas: Seq<Area>, tag: Seq<u8>, index: int) -> Option<Seq<u8>> {
    match first_area(areas, tag) {
        None => None,
        Some(i) => {
            let area = areas[i];
            if !fits(area, s.len()) {
                None
            } else {
                let b = s.subrange(area.offset as int, area.offset + area.size);
                if table_error(area.tag, b) is Some || index < 0 || index >= whole_records(b) {
                    None
                } else {
                    let size = le32(b, 4) as int;
                    Some(b.subrange(data_start(b) + index * size, data_start(b) + (index + 1) * size))
                }
            }
        },
    }
}

/// The name of held slot `slot` (from 1): the first held slot with that number.
pub open spec fn first_held(held: Seq<(usize, Seq<char>)>, slot: u16) -> Option<Seq<char>>
    decreases held.len(),
{
    if held.len() == 0 {
        None
    } else {
        match first_held(held.drop_last(), slot) {
            Some(n) => Some(n),
            None => if held.last().0 + 1 == slot {
                Some(held.last().1)
            } else {
                None
            },
        }
    }
}

/// Whether the file carries audio for slot `slot` (from 1).
pub open spec fn carries(audio: Seq<u32>, slot: u16) -> bool {
    exists|i: int| 0 <= i < audio.len() && (#[trigger] audio[i]) + 1 == slot
}

/// A slot seen for the first time, played by `pb`.
pub open spec fn fresh_slot(ctx: ScanCtx, slot: u16, pb: Seq<char>) -> SlotNeed {
    SlotNeed {
        slot,
        name: first_held(ctx.held, slot),
        carried: carries(ctx.audio, slot),
        silent: false,
        played_by: note(Seq::empty(), pb),
    }
}

/// Sample slot `slot` needed by `pb`.
pub open spec fn need_sample(ctx: ScanCtx, ss: Seq<SlotNeed>, slot: u16, pb: Seq<char>) -> Seq<SlotNeed> {
    match slot_pos(ss, slot) {
        Some(i) => ss.update(i, SlotNeed { played_by: note(ss[i].played_by, pb), ..ss[i] }),
        None => insert_slot(ss, fresh_slot(ctx, slot, pb)),
    }
}

/// The first `n` of `slots` needed by `pb`, in order.
pub open spec fn need_samples(ctx: ScanCtx, ss: Seq<SlotNeed>, slots: Seq<u16>, pb: Seq<char>, n: int) -> Seq<SlotNeed>
    decreases n,
{
    if n <= 0 {
        ss
    } else {
        need_sample(ctx, need_samples(ctx, ss, slots, pb, n - 1), slots[n - 1], pb)
    }
}

/// The area holding the sample references of a row's records: a tone's own, a drum kit's
/// paired instrument sets; none for an engine whose references are not decoded.
pub open spec fn ref_tag(row: int) -> Option<Seq<u8>> {
    if row == 0 {
        Some(tag4('P', 'A', 'T', 'a'))
    } else if row == 1 {
        Some(tag4('I', 'N', 'S', 'a'))
    } else {
        None
    }
}

/// Record `index` of row `row` followed, for the slots it plays, once.
pub open spec fn follow_step(ctx: ScanCtx, st: ScanView, row: int, index: usize, pb: Seq<char>) -> ScanView {
    let key = (row_tag(row), index);
    if st.followed.contains(key) {
        st
    } else {
        let st1 = ScanView { followed: st.followed.push(key), ..st };
        match ref_tag(row) {
            None => st1,
            Some(tag) => match record_in(ctx.s, ctx.areas, tag, index as int) {
                None => st1,
                Some(r) => {
                    let slots = record_slots(tag, r);
                    ScanView { samples: need_samples(ctx, st1.samples, slots, pb, slots.len() as int), ..st1 }
                },
            },
        }
    }
}

/// The area tag as a number, reading its bytes big-endian: its place in tag order.
pub open spec fn tag_code(t: Seq<u8>) -> int {
    t[0] * 16777216 + t[1] * 65536 + t[2] * 256 + t[3]
}

/// A tone's name unless it is a placeholder.
pub open spec fn real_name(n: Option<String>) -> Option<Seq<char>> {
    match n {
        Some(s) => if is_placeholder(s@) {
            None
        } else {
            Some(s@)
        },
        None => None,
    }
}

/// A static label by its characters.
pub open spec fn label_text(l: Option<&'static str>) -> Option<Seq<char>> {
    match l {
        Some(s) => Some(s@),
        None => None,
    }
}

/// One zone's tone added: its engine, then the user record it resolves to (followed when the file
/// carries it), or the instrument's bank it points at, or the address itself when no engine
/// claims it.
pub open spec fn zone_step(ctx: ScanCtx, st: ScanView, tone: ToneRef) -> ScanView {
    let t = tone.spec_tone_type();
    let st1 = ScanView { engines: add_once(st.engines, t), ..st };
    let a = tone.address;
    match bank_row(a.msb, a.lsb) {
        Some(row) => {
            let index = record_index(a.msb, a.lsb, a.pc) as usize;
            let name = real_name(tone.name);
            let need = ToneNeed {
                code: tag_code(row_tag(row)),
                index,
                area: utf8_lossy(row_tag(row)),
                engine: row_type(row),
                name,
                address: a,
                present: name is Some,
            };
            let st2 = ScanView { tones: add_tone(st1.tones, need), ..st1 };
            match name {
                Some(n) => follow_step(ctx, st2, row, index, n),
                None => st2,
            }
        },
        None => if t == ToneType::Unknown {
            ScanView { unclassified: add_once(st1.unclassified, a), ..st1 }
        } else {
            ScanView {
                banks: add_once(
                    st1.banks,
                    BankNeed {
                        engine: t,
                        bank: label_text(bank_label(t, a.msb, a.lsb)),
                        tone: opt_text(tone.name),
                        address: a,
                    },
                ),
                ..st1
            }
        },
    }
}

/// Whether a zone counts: anything but a zone nobody ever set up.
pub open spec fn zone_played(groups: Seq<KeyboardGroup>, z: Zone) -> bool {
    !(state_of(groups, z) is Unused)
}

/// The first `n` zones of a scene added.
pub open spec fn scene_steps(ctx: ScanCtx, st: ScanView, groups: Seq<KeyboardGroup>, zones: Seq<Zone>, n: int) -> ScanView
    decreases n,
{
    if n <= 0 {
        st
    } else {
        let prev = scene_steps(ctx, st, groups, zones, n - 1);
        if zone_played(groups, zones[n - 1]) {
            zone_step(ctx, prev, zones[n - 1].tone)
        } else {
            prev
        }
    }
}

/// A whole scene added.
pub open spec fn scene_step(ctx: ScanCtx, st: ScanView, scene: Scene) -> ScanView {
    scene_steps(ctx, st, scene.groups@, scene.zones@, scene.zones@.len() as int)
}

/// A bundled record of row `row` added as material in its own right: its engine, then its
/// references.
pub open spec fn record_step(ctx: ScanCtx, st: ScanView, row: int, index: usize, name: Seq<char>) -> ScanView {
    follow_step(ctx, ScanView { engines: add_once(st.engines, row_type(row)), ..st }, row, index, name)
}

/// The walk so far, kept as the code keeps it.
pub struct Scan {
    pub engines: Vec<ToneType>,
    pub tone_codes: Vec<u32>,
    pub tones: Vec<ToneRequirement>,
    pub banks: Vec<BankRequirement>,
    pub samples: Vec<SlotRequirement>,
    pub unclassified: Vec<ToneAddress>,
    pub followed: Vec<([u8; 4], usize)>,
}

impl View for Scan {
    type V = ScanView;

    open spec fn view(&self) -> ScanView {
        ScanView {
            engines: self.engines@,
            tones: Seq::new(
                self.tones@.len(),
                |i: int| tone_need(self.tone_codes@[i], self.tones@[i]),
            ),
            banks: self.banks@.map_values(|b: BankRequirement| bank_need(b)),
            samples: self.samples@.map_values(|x: SlotRequirement| slot_need(x)),
            unclassified: self.unclassified@,
            followed: self.followed@.map_values(|k: ([u8; 4], usize)| (k.0@, k.1)),
        }
    }
}

impl Scan {
    pub open spec fn inv(&self) -> bool {
        &&& self.tone_codes@.len() == self.tones@.len()
        &&& scan_wf(self@)
    }

    pub fn new() -> (r: Scan)
        ensures
            r.inv(),
            r@ == empty_scan(),
    {
        let r = Scan {
            engines: Vec::new(),
            tone_codes: Vec::new(),
            tones: Vec::new(),
            banks: Vec::new(),
            samples: Vec::new(),
            unclassified: Vec::new(),
            followed: Vec::new(),
        };
        assert(r@.tones =~= Seq::<ToneNeed>::empty());
        assert(r@.banks =~= Seq::<BankNeed>::empty());
        assert(r@.samples =~= Seq::<SlotNeed>::empty());
        assert(r@.followed =~= Seq::<(Seq<u8>, usize)>::empty());
        r
    }

    /// Engine `e` noted, once.
    pub fn engine(&mut self, e: ToneType)
        requires
            old(self).inv(),
        ensures
            final(self).inv(),
            final(self)@ == (ScanView { engines: add_once(old(self)@.engines, e), ..old(self)@ }),
    {
        let mut i: usize = 0;
        while i < self.engines.len()
            invariant
                i <= self.engines@.len(),
                self.inv(),
                *self == *old(self),
                forall|j: int| 0 <= j < i ==> self.engines@[j] != e,
            decreases self.engines@.len() - i,
        {
            if self.engines[i] == e {
                assert(self.engines@.contains(e));
                return;
            }
            i = i + 1;
        }
        proof {
            lemma_add_once(self.engines@, e);
        }
        self.engines.push(e);
    }
}


/// What a file's sample bank tells the walk.
pub open spec fn bank_ctx(s: Seq<u8>, areas: Seq<Area>, slots: Seq<SampleSlot>, data: Seq<SampleData>) -> ScanCtx {
    ScanCtx {
        s,
        areas,
        held: slots.map_values(|h: SampleSlot| (h.index, h.name@)),
        audio: data.map_values(|d: SampleData| d.slot),
    }
}

/// Record `index` of the area tagged `tag`, if the file holds it.
pub(crate) fn record_bytes<'b>(raw: &'b Raw, svd: &Svd, tag: &[u8; 4], index: usize) -> (r: Option<&'b [u8]>)
    ensures
        match record_in(raw@, svd.areas@, tag@, index as int) {
            None => r is None,
            Some(b) => r matches Some(x) && x@ == b,
        },
{
    match RecordTable::from_svd(raw, svd, tag) {
        Ok(Some(t)) => t.record(index),
        _ => None,
    }
}

/// Note `name` as a player, once, unless it is empty.
fn note_player(players: &mut Vec<String>, name: &str)
    ensures
        final(players)@.map_values(|p: String| p@) == note(old(players)@.map_values(|p: String| p@), name@),
{
    let ghost before = players@.map_values(|p: String| p@);
    if name.unicode_len() == 0 {
        return;
    }
    let mut i: usize = 0;
    while i < players.len()
        invariant
            i <= players@.len(),
            *players == *old(players),
            before == players@.map_values(|p: String| p@),
            forall|j: int| 0 <= j < i ==> before[j] != name@,
        decreases players@.len() - i,
    {
        if str_equal(players[i].as_str(), name) {
            assert(before[i as int] == name@);
            assert(before.contains(name@));
            return;
        }
        i = i + 1;
    }
    assert(!before.contains(name@));
    let mut s = String::new();
    push_str(&mut s, name);
    assert(s@ =~= name@);
    players.push(s);
    assert(players@.map_values(|p: String| p@) =~= before.push(name@));
}

proof fn lemma_first_held_prefix(held: Seq<(usize, Seq<char>)>, slot: u16, n: int)
    requires
        0 < n <= held.len(),
        first_held(held.subrange(0, n), slot) == Some(held[n - 1].1),
        first_held(held.subrange(0, n - 1), slot) is None,
    ensures
        first_held(held, slot) == Some(held[n - 1].1),
    decreases held.len(),
{
    if held.len() > n {
        assert(held.drop_last().subrange(0, n) =~= held.subrange(0, n));
        assert(held.drop_last().subrange(0, n - 1) =~= held.subrange(0, n - 1));
        assert(held.drop_last()[n - 1] == held[n - 1]);
        lemma_first_held_prefix(held.drop_last(), slot, n);
    } else {
        assert(held.subrange(0, n) =~= held);
    }
}

/// The name of held slot `slot` (from 1), if the bank names it.
fn held_name(slots: &Vec<SampleSlot>, slot: u16) -> (r: Option<String>)
    ensures
        opt_text(r) == first_held(slots@.map_values(|h: SampleSlot| (h.index, h.name@)), slot),
{
    let ghost held = slots@.map_values(|h: SampleSlot| (h.index, h.name@));
    let mut i: usize = 0;
    while i < slots.len()
        invariant
            i <= slots@.len(),
            held == slots@.map_values(|h: SampleSlot| (h.index, h.name@)),
            first_held(held.subrange(0, i as int), slot) is None,
        decreases slots@.len() - i,
    {
        assert(held.subrange(0, i + 1).drop_last() =~= held.subrange(0, i as int));
        let h = &slots[i];
        if slot > 0 && h.index == slot as usize - 1 {
            proof {
                lemma_first_held_prefix(held, slot, i + 1);
            }
            return Some(h.name.clone());
        }
        i = i + 1;
    }
    assert(held.subrange(0, i as int) =~= held);
    None
}

/// Whether the bank carries audio for slot `slot` (from 1).
fn carried_slot(data: &Vec<SampleData>, slot: u16) -> (r: bool)
    ensures
        r == carries(data@.map_values(|d: SampleData| d.slot), slot),
{
    let ghost audio = data@.map_values(|d: SampleData| d.slot);
    let mut i: usize = 0;
    while i < data.len()
        invariant
            i <= data@.len(),
            audio == data@.map_values(|d: SampleData| d.slot),
            forall|j: int| 0 <= j < i ==> audio[j] + 1 != slot,
        decreases data@.len() - i,
    {
        if slot > 0 && data[i].slot as u64 == slot as u64 - 1 {
            assert(audio[i as int] + 1 == slot);
            return true;
        }
        i = i + 1;
    }
    false
}

impl Scan {
    /// Sample slot `slot` needed by `pb`.
    fn need_sample(&mut self, slots: &Vec<SampleSlot>, data: &Vec<SampleData>, slot: u16, pb: &str, Ghost(ctx): Ghost<ScanCtx>)
        requires
            old(self).inv(),
            ctx.held == slots@.map_values(|h: SampleSlot| (h.index, h.name@)),
            ctx.audio == data@.map_values(|d: SampleData| d.slot),
        ensures
            final(self).inv(),
            final(self)@ == (ScanView { samples: need_sample(ctx, old(self)@.samples, slot, pb@), ..old(self)@ }),
    {
        let ghost ss = self@.samples;
        let n = self.samples.len();
        let mut p: usize = 0;
        while p < n && self.samples[p].slot < slot
            invariant
                p <= n == self.samples@.len(),
                *self == *old(self),
                ss == self@.samples,
                forall|j: int| 0 <= j < p ==> (#[trigger] ss[j]).slot < slot,
            decreases n - p,
        {
            assert(ss[p as int] == slot_need(self.samples@[p as int]));
            p = p + 1;
        }
        if p < n && self.samples[p].slot == slot {
            assert(ss[p as int].slot == slot);
            proof {
                lemma_slot_pos(ss, slot, p as int);
            }
            let mut e = self.samples.remove(p);
            assert(slot_need(e) == ss[p as int]);
            note_player(&mut e.played_by, pb);
            let ghost ne = slot_need(e);
            assert(ne == SlotNeed { played_by: note(ss[p as int].played_by, pb@), ..ss[p as int] });
            self.samples.insert(p, e);
            assert(self@.samples =~= ss.update(p as int, ne));
            assert forall|i: int, j: int| 0 <= i < j < self@.samples.len() implies (#[trigger] self@.samples[i]).slot < (#[trigger] self@.samples[j]).slot by {
                assert(ss[i].slot < ss[j].slot);
            }
        } else {
            assert forall|j: int| p <= j < ss.len() implies slot < (#[trigger] ss[j]).slot by {
                assert(ss[p as int].slot != slot);
                if j > p {
                    assert(ss[p as int].slot < ss[j].slot);
                }
            }
            proof {
                lemma_slot_pos_none(ss, slot);
            }
            let name = held_name(slots, slot);
            let carried = carried_slot(data, slot);
            let mut played_by: Vec<String> = Vec::new();
            assert(played_by@.map_values(|x: String| x@) =~= Seq::<Seq<char>>::empty());
            note_player(&mut played_by, pb);
            let e = SlotRequirement { slot, name, carried, silent: false, played_by };
            assert(slot_need(e) == fresh_slot(ctx, slot, pb@));
            proof {
                lemma_insert_slot(ss, fresh_slot(ctx, slot, pb@), p as int);
            }
            self.samples.insert(p, e);
            assert(self@.samples =~= ss.insert(p as int, fresh_slot(ctx, slot, pb@)));
        }
    }
}


/// The area tag as a number, computed.
fn code_of(t: &[u8; 4]) -> (c: u32)
    ensures
        c == tag_code(t@),
{
    t[0] as u32 * 16777216 + t[1] as u32 * 65536 + t[2] as u32 * 256 + t[3] as u32
}

impl Scan {
    /// The slots record `index` of `tag` plays, needed by `pb`.
    fn record(
        &mut self,
        raw: &Raw,
        svd: &Svd,
        slots: &Vec<SampleSlot>,
        data: &Vec<SampleData>,
        tag: &[u8; 4],
        index: usize,
        pb: &str,
        Ghost(ctx): Ghost<ScanCtx>,
    )
        requires
            old(self).inv(),
            ctx == bank_ctx(raw@, svd.areas@, slots@, data@),
        ensures
            final(self).inv(),
            final(self)@ == match record_in(ctx.s, ctx.areas, tag@, index as int) {
                None => old(self)@,
                Some(r) => ScanView {
                    samples: need_samples(ctx, old(self)@.samples, record_slots(tag@, r), pb@, record_slots(tag@, r).len() as int),
                    ..old(self)@
                },
            },
    {
        let rec = match record_bytes(raw, svd, tag, index) {
            Some(r) => r,
            None => {
                return;
            },
        };
        let refs = sample_slots_of(tag, rec);
        let ghost st0 = self@;
        let mut k: usize = 0;
        while k < refs.len()
            invariant
                k <= refs@.len(),
                self.inv(),
                ctx == bank_ctx(raw@, svd.areas@, slots@, data@),
                self@ == (ScanView { samples: need_samples(ctx, st0.samples, refs@, pb@, k as int), ..st0 }),
            decreases refs@.len() - k,
        {
            self.need_sample(slots, data, refs[k], pb, Ghost(ctx));
            k = k + 1;
        }
    }

    /// Record `index` of the area `spec` describes (row `row` of the table) followed, once.
    fn follow(
        &mut self,
        raw: &Raw,
        svd: &Svd,
        slots: &Vec<SampleSlot>,
        data: &Vec<SampleData>,
        spec: &AreaSpec,
        index: usize,
        pb: &str,
        Ghost(row): Ghost<int>,
        Ghost(ctx): Ghost<ScanCtx>,
    )
        requires
            old(self).inv(),
            is_row(*spec, row),
            ctx == bank_ctx(raw@, svd.areas@, slots@, data@),
        ensures
            final(self).inv(),
            final(self)@ == follow_step(ctx, old(self)@, row, index, pb@),
    {
        let ghost key = (row_tag(row), index);
        let ghost fs = self@.followed;
        let mut i: usize = 0;
        while i < self.followed.len()
            invariant
                i <= self.followed@.len(),
                *self == *old(self),
                old(self).inv(),
                is_row(*spec, row),
                fs == self@.followed,
                key == (spec.tag@, index),
                forall|j: int| 0 <= j < i ==> fs[j] != key,
            decreases self.followed@.len() - i,
        {
            let f = &self.followed[i];
            if same_tag(&f.0, &spec.tag) && f.1 == index {
                assert(fs[i as int] == key);
                assert(fs.contains(key));
                return;
            }
            i = i + 1;
        }
        assert(!fs.contains(key));
        self.followed.push((spec.tag, index));
        assert(self@.followed =~= fs.push(key));
        let ghost st1 = self@;
        let pat = tag_of(0x50, 0x41, 0x54, 0x61);
        if same_tag(&spec.tag, &pat) {
            assert(row == 0) by {
                assert(pat@ =~= tag4('P', 'A', 'T', 'a'));
                if row != 0 {
                    assert(row_tag(row)[0] != 0x50u8 || row_tag(row)[1] != 0x41u8 || row_tag(row)[2] != 0x54u8);
                }
            }
            assert(ref_tag(row) == Some(pat@));
            self.record(raw, svd, slots, data, &pat, index, pb, Ghost(ctx));
        } else if let Some(companion) = spec.companion {
            assert(row == 1);
            assert(ref_tag(row) == Some(companion@));
            self.record(raw, svd, slots, data, &companion, index, pb, Ghost(ctx));
        } else {
            assert(row != 0 && row != 1) by {
                if row == 0 {
                    assert(spec.tag@ =~= pat@);
                }
            }
        }
    }

    /// Tone `t`, whose area tag reads as `code`, added unless one with its area and index is there.
    fn tone(&mut self, code: u32, t: ToneRequirement)
        requires
            old(self).inv(),
        ensures
            final(self).inv(),
            final(self)@ == (ScanView { tones: add_tone(old(self)@.tones, tone_need(code, t)), ..old(self)@ }),
    {
        let ghost ts = self@.tones;
        let ghost need = tone_need(code, t);
        let n = self.tones.len();
        let mut p: usize = 0;
        while p < n && (self.tone_codes[p] < code || (self.tone_codes[p] == code && self.tones[p].index < t.index))
            invariant
                p <= n == self.tones@.len() == self.tone_codes@.len(),
                *self == *old(self),
                ts == self@.tones,
                need == tone_need(code, t),
                forall|j: int| 0 <= j < p ==> tone_before(#[trigger] ts[j], need),
            decreases n - p,
        {
            assert(ts[p as int] == tone_need(self.tone_codes@[p as int], self.tones@[p as int]));
            p = p + 1;
        }
        if p < n && self.tone_codes[p] == code && self.tones[p].index == t.index {
            assert(ts[p as int].code == need.code && ts[p as int].index == need.index);
            assert(has_tone(ts, need));
            return;
        }
        assert forall|j: int| p <= j < ts.len() implies tone_before(need, #[trigger] ts[j]) by {
            assert(ts[p as int] == tone_need(self.tone_codes@[p as int], self.tones@[p as int]));
            assert(tone_before(need, ts[p as int]));
            if j > p {
                assert(tone_before(ts[p as int], ts[j]));
            }
        }
        assert(!has_tone(ts, need)) by {
            if has_tone(ts, need) {
                let i = choose|i: int| 0 <= i < ts.len() && (#[trigger] ts[i]).code == need.code && ts[i].index == need.index;
                if i < p {
                    assert(tone_before(ts[i], need));
                } else {
                    assert(tone_before(need, ts[i]));
                }
            }
        }
        proof {
            lemma_insert_tone(ts, need, p as int);
        }
        self.tone_codes.insert(p, code);
        self.tones.insert(p, t);
        assert(self@.tones =~= ts.insert(p as int, need));
    }

    /// Address `a` noted as unclassified, once.
    fn unclassified(&mut self, a: ToneAddress)
        requires
            old(self).inv(),
        ensures
            final(self).inv(),
            final(self)@ == (ScanView { unclassified: add_once(old(self)@.unclassified, a), ..old(self)@ }),
    {
        let mut i: usize = 0;
        while i < self.unclassified.len()
            invariant
                i <= self.unclassified@.len(),
                self.inv(),
                *self == *old(self),
                forall|j: int| 0 <= j < i ==> self.unclassified@[j] != a,
            decreases self.unclassified@.len() - i,
        {
            if self.unclassified[i] == a {
                assert(self.unclassified@.contains(a));
                return;
            }
            i = i + 1;
        }
        proof {
            lemma_add_once(self.unclassified@, a);
        }
        self.unclassified.push(a);
    }

    /// Bank `b` noted, once.
    fn bank(&mut self, b: BankRequirement)
        requires
            old(self).inv(),
        ensures
            final(self).inv(),
            final(self)@ == (ScanView { banks: add_once(old(self)@.banks, bank_need(b)), ..old(self)@ }),
    {
        let ghost bs = self@.banks;
        let mut i: usize = 0;
        while i < self.banks.len()
            invariant
                i <= self.banks@.len(),
                self.inv(),
                *self == *old(self),
                bs == self@.banks,
                forall|j: int| 0 <= j < i ==> bs[j] != bank_need(b),
            decreases self.banks@.len() - i,
        {
            if same_bank(&self.banks[i], &b) {
                assert(bs[i as int] == bank_need(b));
                assert(bs.contains(bank_need(b)));
                return;
            }
            i = i + 1;
        }
        proof {
            lemma_add_once(bs, bank_need(b));
        }
        self.banks.push(b);
        assert(self@.banks =~= bs.push(bank_need(b)));
    }
}

/// Whether two pieces of optional text are the same.
fn same_text(a: &Option<String>, b: &Option<String>) -> (r: bool)
    ensures
        r == (opt_text(*a) == opt_text(*b)),
{
    match (a, b) {
        (Some(x), Some(y)) => str_equal(x.as_str(), y.as_str()),
        (None, None) => true,
        _ => false,
    }
}

/// Whether two bank requirements are the same.
fn same_bank(a: &BankRequirement, b: &BankRequirement) -> (r: bool)
    ensures
        r == (bank_need(*a) == bank_need(*b)),
{
    a.engine == b.engine && a.address == b.address && same_text(&a.bank, &b.bank) && same_text(&a.tone, &b.tone)
}


/// A text's own copy.
fn owned(t: &str) -> (r: String)
    ensures
        r@ == t@,
{
    let mut s = String::new();
    push_str(&mut s, t);
    assert(s@ =~= t@);
    s
}

impl Scan {
    /// One zone's tone added.
    fn zone(
        &mut self,
        raw: &Raw,
        svd: &Svd,
        slots: &Vec<SampleSlot>,
        data: &Vec<SampleData>,
        tone: &ToneRef,
        Ghost(ctx): Ghost<ScanCtx>,
    )
        requires
            old(self).inv(),
            ctx == bank_ctx(raw@, svd.areas@, slots@, data@),
        ensures
            final(self).inv(),
            final(self)@ == zone_step(ctx, old(self)@, *tone),
    {
        let t = tone.tone_type();
        self.engine(t);
        let a = tone.address;
        match resolve(a.msb, a.lsb, a.pc) {
            Some((spec, index)) => {
                let ghost row = bank_row(a.msb, a.lsb)->Some_0;
                let name: Option<&str> = match tone.name() {
                    Some(n) => if is_placeholder_name(n) {
                        None
                    } else {
                        Some(n)
                    },
                    None => None,
                };
                let kept = match name {
                    Some(n) => Some(owned(n)),
                    None => None,
                };
                assert(opt_text(kept) == real_name(tone.name));
                let area = spec.tag_str();
                let code = code_of(&spec.tag);
                let req = ToneRequirement {
                    area,
                    index,
                    engine: spec.tone_type,
                    name: kept,
                    address: a,
                    present: name.is_some(),
                };
                self.tone(code, req);
                if let Some(n) = name {
                    self.follow(raw, svd, slots, data, &spec, index, n, Ghost(row), Ghost(ctx));
                }
            },
            None => {
                if t == ToneType::Unknown {
                    self.unclassified(a);
                } else {
                    let bank = match tone.bank() {
                        Some(b) => Some(owned(b)),
                        None => None,
                    };
                    let named = match &tone.name {
                        Some(n) => Some(owned(n.as_str())),
                        None => None,
                    };
                    self.bank(BankRequirement { engine: t, bank, tone: named, address: a });
                }
            },
        }
    }

    /// Every zone of `scene` that counts added, in order.
    fn scene(
        &mut self,
        raw: &Raw,
        svd: &Svd,
        slots: &Vec<SampleSlot>,
        data: &Vec<SampleData>,
        scene: &Scene,
        Ghost(ctx): Ghost<ScanCtx>,
    )
        requires
            old(self).inv(),
            ctx == bank_ctx(raw@, svd.areas@, slots@, data@),
            forall|k: int| 0 <= k < scene.zones@.len() ==> (#[trigger] scene.zones@[k]).enabled || scene.zones@[k].number < 255,
        ensures
            final(self).inv(),
            final(self)@ == scene_step(ctx, old(self)@, *scene),
    {
        let ghost st0 = self@;
        let mut k: usize = 0;
        while k < scene.zones.len()
            invariant
                k <= scene.zones@.len(),
                self.inv(),
                ctx == bank_ctx(raw@, svd.areas@, slots@, data@),
                forall|j: int| 0 <= j < scene.zones@.len() ==> (#[trigger] scene.zones@[j]).enabled || scene.zones@[j].number < 255,
                self@ == scene_steps(ctx, st0, scene.groups@, scene.zones@, k as int),
            decreases scene.zones@.len() - k,
        {
            let z = &scene.zones[k];
            let played = z.enabled || scene.zone_state(z).is_played();
            if played {
                self.zone(raw, svd, slots, data, &z.tone, Ghost(ctx));
            }
            k = k + 1;
        }
    }
}


/// Whether `t` shows tone `n`: everything but the ordering key.
pub open spec fn shows_tone(t: ToneRequirement, n: ToneNeed) -> bool {
    &&& t.index == n.index
    &&& t.area@ == n.area
    &&& t.engine == n.engine
    &&& opt_text(t.name) == n.name
    &&& t.address == n.address
    &&& t.present == n.present
}

/// Whether `r` is the closure `st` handed out: engines as first played, records by area and
/// index, banks and unclassified addresses as first met, slots by number, and whether the file
/// carries audio of its own.
pub open spec fn finished(r: crate::requirements::Requirements, ctx: ScanCtx, st: ScanView) -> bool {
    &&& scan_wf(st)
    &&& r.engines@ == st.engines
    &&& r.user_tones@.len() == st.tones.len()
    &&& forall|i: int| 0 <= i < st.tones.len() ==> shows_tone(#[trigger] r.user_tones@[i], st.tones[i])
    &&& r.banks@.map_values(|b: BankRequirement| bank_need(b)) == st.banks
    &&& r.samples@.map_values(|x: SlotRequirement| slot_need(x)) == st.samples
    &&& r.multisamples@.len() == 0
    &&& r.wave_expansions@.len() == 0
    &&& r.unclassified@ == st.unclassified
    &&& r.carries_audio == (ctx.audio.len() > 0)
}

impl Scan {
    /// The closure, handed out.
    fn finish(self, data: &Vec<SampleData>, Ghost(ctx): Ghost<ScanCtx>) -> (r: crate::requirements::Requirements)
        requires
            self.inv(),
            ctx.audio == data@.map_values(|d: SampleData| d.slot),
        ensures
            finished(r, ctx, self@),
    {
        let ghost v = self@;
        let r = crate::requirements::Requirements {
            engines: self.engines,
            user_tones: self.tones,
            banks: self.banks,
            samples: self.samples,
            multisamples: Vec::new(),
            wave_expansions: Vec::new(),
            unclassified: self.unclassified,
            carries_audio: data.len() > 0,
        };
        assert forall|i: int| 0 <= i < v.tones.len() implies shows_tone(#[trigger] r.user_tones@[i], v.tones[i]) by {
            assert(v.tones[i] == tone_need(self.tone_codes@[i], self.tones@[i]));
        }
        r
    }
}

proof fn lemma_row_with_tag_from(row: int, from: int)
    requires
        0 <= from <= row < AREA_COUNT,
    ensures
        row_with_tag(row_tag(row), from) == Some(row),
    decreases row - from,
{
    if from < row {
        if row_tag(from) == row_tag(row) {
            crate::codec::lemma_row_tags_distinct(from, row);
        }
        lemma_row_with_tag_from(row, from + 1);
    }
}

/// A row's tag leads back to the row.
pub proof fn lemma_row_of_tag(row: int)
    requires
        0 <= row < AREA_COUNT,
    ensures
        row_with_tag(row_tag(row), 0) == Some(row),
{
    lemma_row_with_tag_from(row, 0);
}

/// Bundled records come from rows of the table.
proof fn lemma_bundled_rows(s: Seq<u8>, n: int)
    requires
        n <= AREA_COUNT,
    ensures
        forall|k: int| 0 <= k < bundled(s, n).len() ==> 0 <= (#[trigger] bundled(s, n)[k]).0 < AREA_COUNT,
    decreases n,
{
    if n > 0 {
        lemma_bundled_rows(s, n - 1);
        let prev = bundled(s, n - 1);
        assert forall|k: int| 0 <= k < bundled(s, n).len() implies 0 <= (#[trigger] bundled(s, n)[k]).0 < AREA_COUNT by {
            if k < prev.len() {
                assert(bundled(s, n)[k] == prev[k]);
            }
        }
    }
}

/// Zone slots of a record are numbered below the count asked for.
proof fn lemma_present_range(r: Seq<u8>, n: int)
    ensures
        forall|k: int| 0 <= k < present_zones(r, n).len() ==> 0 <= #[trigger] present_zones(r, n)[k] < n,
    decreases n,
{
    if n > 0 {
        lemma_present_range(r, n - 1);
        let prev = present_zones(r, n - 1);
        assert forall|k: int| 0 <= k < present_zones(r, n).len() implies 0 <= #[trigger] present_zones(r, n)[k] < n by {
            if k < prev.len() {
                assert(present_zones(r, n)[k] == prev[k]);
            }
        }
    }
}


/// The first `n` scenes walked.
pub open spec fn scenes_walk(ctx: ScanCtx, st: ScanView, scenes: Seq<Scene>, n: int) -> ScanView
    decreases n,
{
    if n <= 0 {
        st
    } else {
        scene_step(ctx, scenes_walk(ctx, st, scenes, n - 1), scenes[n - 1])
    }
}

/// The first `n` bundled records walked, each as (row, index, name); placeholders are skipped.
pub open spec fn tones_walk(ctx: ScanCtx, st: ScanView, tones: Seq<(int, int, Seq<char>)>, n: int) -> ScanView
    decreases n,
{
    if n <= 0 {
        st
    } else {
        let prev = tones_walk(ctx, st, tones, n - 1);
        let t = tones[n - 1];
        if is_placeholder(t.2) {
            prev
        } else {
            record_step(ctx, prev, t.0, t.1 as usize, t.2)
        }
    }
}

/// A whole file walked: its scenes, then every record it bundles.
pub open spec fn file_walk(ctx: ScanCtx, scenes: Seq<Scene>) -> ScanView {
    let tones = bundled(ctx.s, AREA_COUNT as int);
    tones_walk(ctx, scenes_walk(ctx, empty_scan(), scenes, scenes.len() as int), tones, tones.len() as int)
}

/// Whether `v` is what the scene area `body` of file `s` decodes to, scene by scene.
pub open spec fn decoded_scenes(s: Seq<u8>, body: Seq<u8>, v: Seq<Scene>) -> bool {
    &&& v.len() == scenes_in(body).len()
    &&& forall|k: int|
        0 <= k < v.len() ==> decodes_scene(
            #[trigger] v[k],
            body.subrange(scenes_in(body)[k], record_end(body.len() as int, scenes_in(body)[k], le32(body, 4) as int)),
            s,
        )
}

/// The name of record `index` of row `row`, unless it is a placeholder or the record is missing.
pub open spec fn tone_name(ctx: ScanCtx, row: int, index: int) -> Seq<char> {
    let off = if row == 6 {
        0x1c44int
    } else if row == 8 {
        0x10int
    } else {
        0int
    };
    match record_in(ctx.s, ctx.areas, row_tag(row), index) {
        None => Seq::empty(),
        Some(r) => if off > r.len() {
            Seq::empty()
        } else {
            let n = field_text(name_field(r.subrange(off, r.len() as int), row == 6));
            if is_placeholder(n) {
                Seq::empty()
            } else {
                n
            }
        },
    }
}

/// What a file's sampling reads as: the bodies of its slot table and its waveform area (each
/// absent when the file has none), or `None` when reading the sampling fails.
pub open spec fn sampling_of(s: Seq<u8>, areas: Seq<Area>) -> Option<(Option<Seq<u8>>, Option<Seq<u8>>)> {
    match (
        table_body_of(s, areas, seq![0x53u8, 0x4d, 0x50, 0x61]),
        area_body_of(s, areas, seq![0x55u8, 0x53, 0x44, 0x61]),
        table_body_of(s, areas, seq![0x4du8, 0x4c, 0x53, 0x61]),
    ) {
        (Ok(smpa), Ok(usda), Ok(_)) => Some((smpa, usda)),
        _ => None,
    }
}

/// Whether `held` lists the used slots of a slot table's body, by index and name.
pub open spec fn held_read(held: Seq<(usize, Seq<char>)>, smpa: Option<Seq<u8>>) -> bool {
    match smpa {
        None => held.len() == 0,
        Some(b) => {
            let listed = listed_in(b, whole_records(b) as int);
            &&& held.len() == listed.len()
            &&& forall|k: int|
                0 <= k < held.len() ==> #[trigger] held[k] == (
                    listed[k] as usize,
                    field_text(record_of_body(b, listed[k]).subrange(0, 16)),
                )
        },
    }
}

/// Whether `audio` lists the slot of every waveform a waveform area's directory holds.
pub open spec fn audio_read(audio: Seq<u32>, usda: Option<Seq<u8>>) -> bool {
    match usda {
        None => audio.len() == 0,
        Some(b) => if b.len() < HEADER_LEN {
            audio.len() == 0
        } else {
            let body = b.subrange(HEADER_LEN as int, b.len() as int);
            &&& audio.len() == first_stop(body, 0)
            &&& forall|e: int| 0 <= e < audio.len() ==> #[trigger] audio[e] == le32(body, 8 * e)
        },
    }
}

/// The body of a file's multisample table when its sampling reads (absent when it has none), or
/// `None` when reading the sampling fails.
pub open spec fn multisamples_of(s: Seq<u8>, areas: Seq<Area>) -> Option<Option<Seq<u8>>> {
    match (
        table_body_of(s, areas, seq![0x53u8, 0x4d, 0x50, 0x61]),
        area_body_of(s, areas, seq![0x55u8, 0x53, 0x44, 0x61]),
        table_body_of(s, areas, seq![0x4du8, 0x4c, 0x53, 0x61]),
    ) {
        (Ok(_), Ok(_), Ok(mlsa)) => Some(mlsa),
        _ => None,
    }
}

/// Whether `held` lists, numbered from 1, the multisamples of a multisample table's body that
/// differ from the factory default.
pub open spec fn held_multisamples(held: Seq<HeldSlot>, mlsa: Option<Option<Seq<u8>>>) -> bool {
    match mlsa {
        Some(Some(b)) => {
            let edited = edited_in(b, whole_records(b) as int);
            &&& held.len() == edited.len()
            &&& forall|k: int|
                0 <= k < held.len() ==> {
                    let r = record_of_body(b, edited[k]);
                    &&& (#[trigger] held[k]).slot == ((edited[k] + 1) % 65536) as u16
                    &&& held[k].name@ == field_text(r.subrange(0, head_len(r)))
                }
        },
        _ => held.len() == 0,
    }
}

/// Whether `ctx` is what opening file `s` gives: its bytes, its area table, and the slots and
/// audio its sampling holds (none when the sampling cannot be read).
pub open spec fn opened(ctx: ScanCtx, s: Seq<u8>) -> bool {
    &&& ctx.s == s
    &&& exists|svd: Svd| #[trigger] parses_as(svd, s) && ctx.areas == svd.areas@
    &&& match sampling_of(s, ctx.areas) {
        None => ctx.held.len() == 0 && ctx.audio.len() == 0,
        Some((smpa, usda)) => held_read(ctx.held, smpa) && audio_read(ctx.audio, usda),
    }
}

/// Reads requirements out of one open file, parsing its area table and sample bank once.
pub struct Reader<'a> {
    pub raw: &'a Raw,
    pub svd: Svd,
    pub bank: SampleBank,
}

impl<'a> Reader<'a> {
    /// What the walk reads from this file.
    pub open spec fn ctx(&self) -> ScanCtx {
        bank_ctx(self.raw@, self.svd.areas@, self.bank.slots@, self.bank.data@)
    }

    /// Open a file. One whose sample areas cannot be read answers with an empty bank: a scene
    /// export has none by definition, and that is not a fault in it.
    pub fn open(raw: &'a Raw) -> (r: Result<Reader<'a>>)
        ensures
            r is Ok <==> envelope_error(raw@) is None,
            r matches Err(e) ==> (envelope_error(raw@) matches Some(x) && (x is NotAContainer || e == x)),
            r matches Ok(rd) ==> rd.raw == raw && parses_as(rd.svd, raw@) && opened(rd.ctx(), raw@),
            r matches Ok(rd) ==> match multisamples_of(raw@, rd.svd.areas@) {
                Some(mlsa) => multisamples_read(rd.bank.multisamples@, mlsa),
                None => rd.bank.multisamples@.len() == 0,
            },
    {
        let svd = Svd::parse(raw)?;
        let bank = match read_samples(raw, &svd) {
            Ok(b) => b,
            Err(_) => SampleBank { slots: Vec::new(), data: Vec::new(), multisamples: Vec::new() },
        };
        let rd = Reader { raw, svd, bank };
        proof {
            let ctx = rd.ctx();
            if let Some((smpa, usda)) = sampling_of(raw@, rd.svd.areas@) {
                if let Some(b) = smpa {
                    let listed = listed_in(b, whole_records(b) as int);
                    assert forall|k: int| 0 <= k < ctx.held.len() implies #[trigger] ctx.held[k] == (
                        listed[k] as usize,
                        field_text(record_of_body(b, listed[k]).subrange(0, 16)),
                    ) by {
                        assert(crate::container::sample::is_slot(rd.bank.slots@[k], record_of_body(b, listed[k]), listed[k]));
                    }
                }
                if let Some(b) = usda {
                    if b.len() >= HEADER_LEN {
                        let body = b.subrange(HEADER_LEN as int, b.len() as int);
                        assert forall|e: int| 0 <= e < ctx.audio.len() implies #[trigger] ctx.audio[e] == le32(body, 8 * e) by {
                            assert(crate::container::sample::is_data(rd.bank.data@[e], body, e));
                        }
                    }
                }
            }
        }
        assert(parses_as(rd.svd, raw@) && rd.ctx().areas == rd.svd.areas@);
        Ok(rd)
    }

    /// What one scene needs: the per-asset answer a library shows.
    pub fn scene(&self, scene: &Scene) -> (r: Requirements)
        requires
            forall|k: int| 0 <= k < scene.zones@.len() ==> (#[trigger] scene.zones@[k]).enabled || scene.zones@[k].number < 255,
        ensures
            finished(r, self.ctx(), scene_step(self.ctx(), empty_scan(), *scene)),
    {
        let ghost ctx = self.ctx();
        let mut scan = Scan::new();
        scan.scene(self.raw, &self.svd, &self.bank.slots, &self.bank.data, scene, Ghost(ctx));
        scan.finish(&self.bank.data, Ghost(ctx))
    }

    /// What one bundled record needs: the samples its partials play (a drum kit's through its
    /// paired instrument set). `area` is the record's own area tag.
    pub fn tone(&self, area: &[u8; 4], index: usize) -> (r: Result<Requirements>)
        ensures
            match row_with_tag(area@, 0) {
                None => r == Err::<Requirements, Error>(Error::NotAToneArea { tag: *area }),
                Some(row) => r matches Ok(req) && finished(
                    req,
                    self.ctx(),
                    record_step(self.ctx(), empty_scan(), row, index, tone_name(self.ctx(), row, index as int)),
                ),
            },
    {
        let ghost ctx = self.ctx();
        let spec = match spec_for_tag(area) {
            Some(s) => s,
            None => {
                return Err(Error::NotAToneArea { tag: *area });
            },
        };
        let ghost row = row_with_tag(area@, 0)->Some_0;
        let name = record_name(self.raw, &self.svd, &spec, index, Ghost(row));
        let mut scan = Scan::new();
        scan.engine(spec.tone_type);
        scan.follow(self.raw, &self.svd, &self.bank.slots, &self.bank.data, &spec, index, name.as_str(), Ghost(row), Ghost(ctx));
        Ok(scan.finish(&self.bank.data, Ghost(ctx)))
    }

    /// What this file shows it holds, for weighing another file's requirements against it.
    pub fn inventory(&self) -> (r: Inventory)
        ensures
            r.role == role_of(self.raw@),
            r.samples@.len() == self.bank.slots@.len(),
            forall|i: int| 0 <= i < r.samples@.len() ==> #[trigger] r.samples@[i].slot == ((self.bank.slots@[i].index + 1) % 65536) as u16
                && r.samples@[i].name@ == self.bank.slots@[i].name@,
            r.multisamples@.len() == self.bank.multisamples@.len(),
            forall|i: int| 0 <= i < r.multisamples@.len() ==> #[trigger] r.multisamples@[i].slot == ((self.bank.multisamples@[i].index + 1) % 65536) as u16
                && r.multisamples@[i].name@ == self.bank.multisamples@[i].name@,
    {
        let mut samples: Vec<HeldSlot> = Vec::new();
        let mut i: usize = 0;
        while i < self.bank.slots.len()
            invariant
                i <= self.bank.slots@.len(),
                samples@.len() == i,
                forall|j: int| 0 <= j < i ==> #[trigger] samples@[j].slot == ((self.bank.slots@[j].index + 1) % 65536) as u16
                    && samples@[j].name@ == self.bank.slots@[j].name@,
            decreases self.bank.slots@.len() - i,
        {
            let h = &self.bank.slots[i];
            samples.push(HeldSlot { slot: slot_number(h.index), name: h.name.clone() });
            i = i + 1;
        }
        let mut multisamples: Vec<HeldSlot> = Vec::new();
        let mut k: usize = 0;
        while k < self.bank.multisamples.len()
            invariant
                k <= self.bank.multisamples@.len(),
                multisamples@.len() == k,
                forall|j: int| 0 <= j < k ==> #[trigger] multisamples@[j].slot == ((self.bank.multisamples@[j].index + 1) % 65536) as u16
                    && multisamples@[j].name@ == self.bank.multisamples@[j].name@,
            decreases self.bank.multisamples@.len() - k,
        {
            let m = &self.bank.multisamples[k];
            multisamples.push(HeldSlot { slot: slot_number(m.index), name: m.name.clone() });
            k = k + 1;
        }
        Inventory { role: role_of_raw(self.raw), samples, multisamples }
    }
}

/// A slot's panel number (from 1) from its index (from 0), wrapping as the stored 16 bits do.
fn slot_number(index: usize) -> (n: u16)
    ensures
        n == ((index + 1) % 65536) as u16,
{
    let r = (index % 65536) as u16;
    if r == 65535 {
        0
    } else {
        r + 1
    }
}

/// The name of record `index` of `spec`'s area, empty when there is none or it is a placeholder.
fn record_name(raw: &Raw, svd: &Svd, spec: &AreaSpec, index: usize, Ghost(row): Ghost<int>) -> (n: String)
    requires
        is_row(*spec, row),
    ensures
        n@ == tone_name(bank_ctx(raw@, svd.areas@, Seq::empty(), Seq::empty()), row, index as int),
{
    let rec = match record_bytes(raw, svd, &spec.tag, index) {
        Some(r) => r,
        None => {
            return String::new();
        },
    };
    if spec.name_offset > rec.len() {
        return String::new();
    }
    let field = vstd::slice::slice_subrange(rec, spec.name_offset, rec.len());
    let name = spec.decode_name(field);
    if is_placeholder_name(name.as_str()) {
        return String::new();
    }
    name
}


/// Record `k` of a scene area `body`.
pub open spec fn scene_record(body: Seq<u8>, k: int) -> Seq<u8> {
    body.subrange(scenes_in(body)[k], record_end(body.len() as int, scenes_in(body)[k], le32(body, 4) as int))
}

/// Whether `r` is what walking a whole file gives: when it has scenes, the scenes decoded from
/// it (or the error reading them met); then every record it bundles.
pub open spec fn file_outcome(r: Result<Requirements>, ctx: ScanCtx) -> bool {
    if first_area(ctx.areas, prfa()) is None {
        r matches Ok(req) && finished(req, ctx, file_walk(ctx, Seq::empty()))
    } else {
        match scene_area(ctx.s) {
            Err(e) => r == Err::<Requirements, Error>(e),
            Ok((_, body)) => if le32(body, 4) == 0 {
                r == Err::<Requirements, Error>(Error::ZeroRecordSize { tag: prfa_tag() })
            } else {
                &&& r matches Ok(req) && forall|v: Seq<Scene>|
                    #[trigger] decoded_scenes(ctx.s, body, v) ==> finished(req, ctx, file_walk(ctx, v))
                &&& exists|v: Seq<Scene>| #[trigger] decoded_scenes(ctx.s, body, v)
            },
        }
    }
}

proof fn lemma_decoded_zones(sc: Scene, rec: Seq<u8>, s: Seq<u8>)
    requires
        decodes_scene(sc, rec, s),
    ensures
        forall|k: int| 0 <= k < sc.zones@.len() ==> (#[trigger] sc.zones@[k]).enabled || sc.zones@[k].number < 255,
{
    lemma_present_range(rec, ZONE_COUNT as int);
    assert forall|k: int| 0 <= k < sc.zones@.len() implies (#[trigger] sc.zones@[k]).enabled || sc.zones@[k].number < 255 by {
        assert(0 <= present_zones(rec, ZONE_COUNT as int)[k] < ZONE_COUNT);
    }
}

/// Two tones with the same address and name are walked alike.
proof fn lemma_zone_agree(ctx: ScanCtx, st: ScanView, t1: ToneRef, t2: ToneRef)
    requires
        t1.address == t2.address,
        opt_text(t1.name) == opt_text(t2.name),
    ensures
        zone_step(ctx, st, t1) == zone_step(ctx, st, t2),
{
    assert(real_name(t1.name) == real_name(t2.name));
}

/// Two decodings of one scene record are walked alike.
proof fn lemma_scene_agree(ctx: ScanCtx, st: ScanView, a: Scene, b: Scene, rec: Seq<u8>, s: Seq<u8>, n: int)
    requires
        decodes_scene(a, rec, s),
        decodes_scene(b, rec, s),
        0 <= n <= a.zones@.len(),
    ensures
        scene_steps(ctx, st, a.groups@, a.zones@, n) == scene_steps(ctx, st, b.groups@, b.zones@, n),
    decreases n,
{
    if n > 0 {
        lemma_scene_agree(ctx, st, a, b, rec, s, n - 1);
        let za = a.zones@[n - 1];
        let zb = b.zones@[n - 1];
        assert(a.groups@ =~= b.groups@);
        assert(za.tone.address == zb.tone.address);
        assert(opt_text(za.tone.name) == opt_text(zb.tone.name));
        assert(zone_played(a.groups@, za) == zone_played(b.groups@, zb));
        lemma_zone_agree(ctx, scene_steps(ctx, st, a.groups@, a.zones@, n - 1), za.tone, zb.tone);
    }
}

/// Any two decodings of a scene area are walked alike.
proof fn lemma_scenes_agree(ctx: ScanCtx, st: ScanView, v1: Seq<Scene>, v2: Seq<Scene>, s: Seq<u8>, body: Seq<u8>, n: int)
    requires
        decoded_scenes(s, body, v1),
        decoded_scenes(s, body, v2),
        0 <= n <= v1.len(),
    ensures
        scenes_walk(ctx, st, v1, n) == scenes_walk(ctx, st, v2, n),
    decreases n,
{
    if n > 0 {
        lemma_scenes_agree(ctx, st, v1, v2, s, body, n - 1);
        let rec = scene_record(body, n - 1);
        assert(decodes_scene(v1[n - 1], rec, s));
        assert(decodes_scene(v2[n - 1], rec, s));
        lemma_scene_agree(ctx, scenes_walk(ctx, st, v1, n - 1), v1[n - 1], v2[n - 1], rec, s, v1[n - 1].zones@.len() as int);
    }
}

/// Opening a file gives one context only.
pub proof fn lemma_opened_unique(c1: ScanCtx, c2: ScanCtx, s: Seq<u8>)
    requires
        opened(c1, s),
        opened(c2, s),
    ensures
        c1 == c2,
{
    let a = choose|svd: Svd| #[trigger] parses_as(svd, s) && c1.areas == svd.areas@;
    let b = choose|svd: Svd| #[trigger] parses_as(svd, s) && c2.areas == svd.areas@;
    crate::diff::lemma_areas_unique(a, b, s);
    assert(c1.areas == c2.areas);
    match sampling_of(s, c1.areas) {
        None => {
            assert(c1.held =~= c2.held);
            assert(c1.audio =~= c2.audio);
        },
        Some((smpa, usda)) => {
            assert(c1.held =~= c2.held) by {
                if let Some(bb) = smpa {
                    assert forall|k: int| 0 <= k < c1.held.len() implies c1.held[k] == c2.held[k] by {
                        assert(c1.held[k] == c2.held[k]);
                    }
                }
            }
            assert(c1.audio =~= c2.audio) by {
                if let Some(bb) = usda {
                    if bb.len() >= HEADER_LEN {
                        assert forall|e: int| 0 <= e < c1.audio.len() implies c1.audio[e] == c2.audio[e] by {
                            assert(c1.audio[e] == c2.audio[e]);
                        }
                    }
                }
            }
        },
    }
}

impl<'a> Reader<'a> {
    /// Everything the file needs: the closure over its scenes and over every record it bundles.
    /// A tone bank has no scenes, and a missing `PRFa` is no fault in one; bundled records are
    /// followed whether or not a scene names them.
    pub fn file(&self) -> (r: Result<Requirements>)
        ensures
            envelope_error(self.raw@) is Some ==> r is Err,
            envelope_error(self.raw@) is None ==> file_outcome(r, self.ctx()),
    {
        let ghost ctx = self.ctx();
        let mut scan = Scan::new();
        let prfa_tag = prfa_tag_value();
        let ghost mut scenes: Seq<Scene> = Seq::empty();
        if self.svd.area(&prfa_tag).is_some() {
            let v = read_scenes(self.raw)?;
            let ghost body = scene_area(self.raw@)->Ok_0.1;
            let mut k: usize = 0;
            while k < v.len()
                invariant
                    k <= v@.len(),
                    scan.inv(),
                    ctx == self.ctx(),
                    envelope_error(self.raw@) is None,
                    scene_area(self.raw@) matches Ok((_, b)) && b == body && le32(b, 4) != 0,
                    decoded_scenes(self.raw@, body, v@),
                    scan@ == scenes_walk(ctx, empty_scan(), v@, k as int),
                decreases v@.len() - k,
            {
                proof {
                    lemma_decoded_zones(v@[k as int], scene_record(body, k as int), self.raw@);
                }
                scan.scene(self.raw, &self.svd, &self.bank.slots, &self.bank.data, &v[k], Ghost(ctx));
                k = k + 1;
            }
            proof {
                scenes = v@;
            }
        }
        let ghost mid = scan@;
        assert(mid == scenes_walk(ctx, empty_scan(), scenes, scenes.len() as int));
        let tones = read_bundled_tones(self.raw)?;
        let ghost bt = bundled(self.raw@, AREA_COUNT as int);
        proof {
            lemma_bundled_rows(self.raw@, AREA_COUNT as int);
        }
        let mut k: usize = 0;
        while k < tones.len()
            invariant
                k <= tones@.len() == bt.len(),
                scan.inv(),
                ctx == self.ctx(),
                bt == bundled(self.raw@, AREA_COUNT as int),
                forall|j: int| 0 <= j < bt.len() ==> 0 <= (#[trigger] bt[j]).0 < AREA_COUNT,
                forall|j: int| 0 <= j < tones@.len() ==> crate::codec::is_bundled(#[trigger] tones@[j], bt[j]),
                scan@ == tones_walk(ctx, mid, bt, k as int),
            decreases tones@.len() - k,
        {
            let t = &tones[k];
            assert(crate::codec::is_bundled(tones@[k as int], bt[k as int]));
            if !is_placeholder_name(t.name.as_str()) {
                let ghost row = bt[k as int].0;
                proof {
                    lemma_row_of_tag(row);
                }
                match spec_for_tag(&t.area) {
                    Some(spec) => {
                        scan.engine(spec.tone_type);
                        scan.follow(self.raw, &self.svd, &self.bank.slots, &self.bank.data, &spec, t.index, t.name.as_str(), Ghost(row), Ghost(ctx));
                    },
                    None => {},
                }
            }
            k = k + 1;
        }
        let req = scan.finish(&self.bank.data, Ghost(ctx));
        assert(finished(req, ctx, file_walk(ctx, scenes)));
        proof {
            if first_area(ctx.areas, prfa()) is Some {
                if let Ok((_, body)) = scene_area(ctx.s) {
                    if le32(body, 4) != 0 {
                        assert(decoded_scenes(ctx.s, body, scenes));
                        assert forall|v: Seq<Scene>| #[trigger] decoded_scenes(ctx.s, body, v) implies finished(req, ctx, file_walk(ctx, v)) by {
                            lemma_scenes_agree(ctx, empty_scan(), scenes, v, ctx.s, body, scenes.len() as int);
                        }
                    }
                }
            }
        }
        Ok(req)
    }
}

/// Everything one file needs. See [`Reader::file`].
pub fn requirements(raw: &Raw) -> (r: Result<Requirements>)
    ensures
        envelope_error(raw@) is Some ==> r is Err,
        envelope_error(raw@) is None ==> forall|ctx: ScanCtx| #[trigger] opened(ctx, raw@) ==> file_outcome(r, ctx),
        envelope_error(raw@) is None ==> exists|ctx: ScanCtx| #[trigger] opened(ctx, raw@),
{
    let rd = Reader::open(raw)?;
    let r = rd.file();
    assert(opened(rd.ctx(), raw@) && file_outcome(r, rd.ctx()));
    proof {
        assert forall|ctx: ScanCtx| #[trigger] opened(ctx, raw@) implies file_outcome(r, ctx) by {
            lemma_opened_unique(ctx, rd.ctx(), raw@);
        }
    }
    r
}

/// What one scene needs, by its number (from 1). See [`Reader::scene`].
pub fn scene_requirements(raw: &Raw, scene_number: usize) -> (r: Result<Requirements>)
    ensures
        envelope_error(raw@) is Some ==> r is Err,
        envelope_error(raw@) is None ==> match scene_area(raw@) {
            Err(e) => r == Err::<Requirements, Error>(e),
            Ok((_, body)) => if le32(body, 4) == 0 {
                r == Err::<Requirements, Error>(Error::ZeroRecordSize { tag: prfa_tag() })
            } else if scene_number == 0 || scene_number > scenes_in(body).len() {
                r == Err::<Requirements, Error>(
                    Error::SceneOutOfRange { scene: scene_number, count: scenes_in(body).len() as usize },
                )
            } else {
                &&& r matches Ok(req) && forall|ctx: ScanCtx, sc: Scene|
                    #![trigger opened(ctx, raw@), decodes_scene(sc, scene_record(body, scene_number - 1), raw@)]
                    opened(ctx, raw@) && decodes_scene(sc, scene_record(body, scene_number - 1), raw@)
                        ==> finished(req, ctx, scene_step(ctx, empty_scan(), sc))
                &&& exists|ctx: ScanCtx| #[trigger] opened(ctx, raw@)
                &&& exists|sc: Scene| #[trigger] decodes_scene(sc, scene_record(body, scene_number - 1), raw@)
            },
        },
{
    let scenes = read_scenes(raw)?;
    let ghost body = scene_area(raw@)->Ok_0.1;
    if scene_number == 0 || scene_number > scenes.len() {
        return Err(Error::SceneOutOfRange { scene: scene_number, count: scenes.len() });
    }
    let rd = Reader::open(raw)?;
    let sc = &scenes[scene_number - 1];
    proof {
        lemma_decoded_zones(*sc, scene_record(body, scene_number - 1), raw@);
    }
    let req = rd.scene(sc);
    assert(opened(rd.ctx(), raw@) && decodes_scene(*sc, scene_record(body, scene_number - 1), raw@));
    proof {
        let rec = scene_record(body, scene_number - 1);
        assert forall|ctx: ScanCtx, other: Scene|
            opened(ctx, raw@) && decodes_scene(other, rec, raw@) implies finished(req, ctx, scene_step(ctx, empty_scan(), other)) by {
            lemma_opened_unique(ctx, rd.ctx(), raw@);
            lemma_scene_agree(ctx, empty_scan(), *sc, other, rec, raw@, sc.zones@.len() as int);
        }
    }
    Ok(req)
}

/// What one bundled record needs. See [`Reader::tone`].
pub fn tone_requirements(raw: &Raw, area: &[u8; 4], index: usize) -> (r: Result<Requirements>)
    ensures
        envelope_error(raw@) is Some ==> r is Err,
        envelope_error(raw@) is None ==> match row_with_tag(area@, 0) {
            None => r == Err::<Requirements, Error>(Error::NotAToneArea { tag: *area }),
            Some(row) => r matches Ok(req) && forall|ctx: ScanCtx|
                #[trigger] opened(ctx, raw@) ==> finished(
                    req,
                    ctx,
                    record_step(ctx, empty_scan(), row, index, tone_name(ctx, row, index as int)),
                ),
        },
        envelope_error(raw@) is None ==> exists|ctx: ScanCtx| #[trigger] opened(ctx, raw@),
{
    let rd = Reader::open(raw)?;
    let r = rd.tone(area, index);
    assert(opened(rd.ctx(), raw@));
    proof {
        if let Some(row) = row_with_tag(area@, 0) {
            assert forall|ctx: ScanCtx| #[trigger] opened(ctx, raw@) implies (r matches Ok(req) && finished(
                req,
                ctx,
                record_step(ctx, empty_scan(), row, index, tone_name(ctx, row, index as int)),
            )) by {
                lemma_opened_unique(ctx, rd.ctx(), raw@);
            }
        }
    }
    r
}

/// What a destination file holds: what it is for, its used sample slots and its edited
/// multisamples, numbered from 1. See [`Reader::inventory`].
pub fn inventory(raw: &Raw) -> (r: Result<Inventory>)
    ensures
        envelope_error(raw@) is Some ==> r is Err,
        envelope_error(raw@) is None ==> (r matches Ok(inv) && inv.role == role_of(raw@)),
        r matches Ok(inv) ==> forall|ctx: ScanCtx| #[trigger] opened(ctx, raw@) ==> {
            &&& inv.samples@.len() == ctx.held.len()
            &&& forall|i: int|
                0 <= i < inv.samples@.len() ==> #[trigger] inv.samples@[i].slot == ((ctx.held[i].0 + 1) % 65536) as u16
                    && inv.samples@[i].name@ == ctx.held[i].1
            &&& held_multisamples(inv.multisamples@, multisamples_of(raw@, ctx.areas))
        },
{
    let rd = Reader::open(raw)?;
    let inv = rd.inventory();
    proof {
        let ctx = rd.ctx();
        let m = multisamples_of(raw@, ctx.areas);
        if let Some(Some(b)) = m {
            let edited = edited_in(b, whole_records(b) as int);
            assert forall|k: int| 0 <= k < inv.multisamples@.len() implies {
                let r = record_of_body(b, edited[k]);
                &&& (#[trigger] inv.multisamples@[k]).slot == ((edited[k] + 1) % 65536) as u16
                &&& inv.multisamples@[k].name@ == field_text(r.subrange(0, head_len(r)))
            } by {
                assert(multisamples_read(rd.bank.multisamples@, Some(b)));
                let ms = rd.bank.multisamples@[k];
                assert(ms.index == edited[k]);
                assert(inv.multisamples@[k].slot == ((ms.index + 1) % 65536) as u16);
                assert(inv.multisamples@[k].name@ == ms.name@);
            }
        }
        assert forall|ctx2: ScanCtx| #[trigger] opened(ctx2, raw@) implies {
            &&& inv.samples@.len() == ctx2.held.len()
            &&& forall|i: int|
                0 <= i < inv.samples@.len() ==> #[trigger] inv.samples@[i].slot == ((ctx2.held[i].0 + 1) % 65536) as u16
                    && inv.samples@[i].name@ == ctx2.held[i].1
            &&& held_multisamples(inv.multisamples@, multisamples_of(raw@, ctx2.areas))
        } by {
            lemma_opened_unique(ctx2, ctx, raw@);
        }
    }
    Ok(inv)
}

} // verus!
