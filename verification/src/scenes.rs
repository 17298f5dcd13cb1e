//! What a library records of a scene: its zones as the panel shows them, the engines its playing
//! zones call for, the bundled user tones it needs, and the content it reaches for that the
//! instrument itself has to supply.

use vstd::prelude::*;

use crate::model::{bank_label, state_of, KeyboardGroup, Scene, ToneRef, ToneType, Zone, ZoneState};
use crate::codec::{
    decodes_scene, is_placeholder, is_placeholder_name, prfa_tag, present_zones, read_scene_records, read_scenes,
    record_end, scene_area, scenes_in, text_at, COMMENT_LEN, COMMENT_OFFSET, NAME_LEN, ZONE_COUNT,
};
use crate::bytes::le32;
use crate::container::svd::envelope_error;
use crate::container::Raw;
use crate::text::{padded_decimal, push_padded_decimal, push_str};
use crate::{Error, Result};

verus! {

/// Whether text `a` sorts before text `b`: character by character, a prefix first. This is the
/// order of `String`, since UTF-8 keeps the order of code points.
pub open spec fn text_before(a: Seq<char>, b: Seq<char>) -> bool
    decreases a.len(),
{
    if a.len() == 0 {
        b.len() > 0
    } else if b.len() == 0 {
        false
    } else if a[0] != b[0] {
        (a[0] as int) < (b[0] as int)
    } else {
        text_before(a.drop_first(), b.drop_first())
    }
}

proof fn lemma_text_strict(a: Seq<char>, b: Seq<char>)
    ensures
        text_before(a, b) ==> !text_before(b, a) && a != b,
        a != b ==> text_before(a, b) || text_before(b, a),
    decreases a.len(),
{
    if a.len() > 0 && b.len() > 0 && a[0] == b[0] {
        lemma_text_strict(a.drop_first(), b.drop_first());
        if a.drop_first() == b.drop_first() {
            assert(a =~= seq![a[0]] + a.drop_first());
            assert(b =~= seq![b[0]] + b.drop_first());
        }
    } else if a.len() == 0 && b.len() == 0 {
        assert(a =~= b);
    }
}

proof fn lemma_text_trans(a: Seq<char>, b: Seq<char>, c: Seq<char>)
    requires
        text_before(a, b),
        text_before(b, c),
    ensures
        text_before(a, c),
    decreases a.len(),
{
    if a.len() > 0 && b.len() > 0 && c.len() > 0 && a[0] == b[0] && b[0] == c[0] {
        lemma_text_trans(a.drop_first(), b.drop_first(), c.drop_first());
    }
}

/// Whether the texts `v` are in strictly ascending order.
pub open spec fn text_ascending(v: Seq<Seq<char>>) -> bool {
    forall|i: int, j: int| 0 <= i < j < v.len() ==> text_before(#[trigger] v[i], #[trigger] v[j])
}

/// The texts of `v`.
pub open spec fn texts(v: Seq<String>) -> Seq<Seq<char>> {
    v.map_values(|s: String| s@)
}

/// Whether `a` sorts before `b`.
fn text_less(a: &str, b: &str) -> (r: bool)
    ensures
        r == text_before(a@, b@),
{
    let la = a.unicode_len();
    let lb = b.unicode_len();
    let mut i: usize = 0;
    assert(a@.skip(0) =~= a@);
    assert(b@.skip(0) =~= b@);
    while i < la && i < lb
        invariant
            la == a@.len(),
            lb == b@.len(),
            i <= la,
            i <= lb,
            text_before(a@, b@) == text_before(a@.skip(i as int), b@.skip(i as int)),
        decreases la - i,
    {
        let ca = a.get_char(i);
        let cb = b.get_char(i);
        assert(a@.skip(i as int)[0] == ca && b@.skip(i as int)[0] == cb);
        if ca != cb {
            return (ca as u32) < (cb as u32);
        }
        assert(a@.skip(i as int).drop_first() =~= a@.skip(i + 1));
        assert(b@.skip(i as int).drop_first() =~= b@.skip(i + 1));
        i = i + 1;
    }
    i == la && i < lb
}

/// Whether `a` and `b` are the same text.
fn same_text(a: &str, b: &str) -> (r: bool)
    ensures
        r == (a@ == b@),
{
    let x = text_less(a, b);
    let y = text_less(b, a);
    proof {
        lemma_text_strict(a@, b@);
    }
    !x && !y
}

/// Put `x` into the ascending texts `v`, unless it is there already.
fn insert_text(v: &mut Vec<String>, x: String)
    requires
        text_ascending(texts(old(v)@)),
    ensures
        text_ascending(texts(final(v)@)),
        texts(final(v)@).to_set() == texts(old(v)@).to_set().insert(x@),
{
    let ghost t0 = texts(v@);
    let mut p: usize = 0;
    let mut done = false;
    while p < v.len() && !done
        invariant
            p <= v@.len(),
            v@ == old(v)@,
            t0 == texts(v@),
            text_ascending(t0),
            forall|i: int| 0 <= i < p ==> text_before(#[trigger] t0[i], x@),
            done ==> p < v@.len() && !text_before(t0[p as int], x@),
        decreases v@.len() - p + (if done { 0int } else { 1int }),
    {
        if text_less(v[p].as_str(), x.as_str()) {
            p = p + 1;
        } else {
            done = true;
        }
    }
    if p < v.len() && same_text(v[p].as_str(), x.as_str()) {
        assert(t0.to_set().insert(x@) =~= t0.to_set()) by {
            assert(t0[p as int] == x@);
        }
        return;
    }
    proof {
        if p < t0.len() {
            lemma_text_strict(t0[p as int], x@);
        }
    }
    v.insert(p, x);
    let ghost t1 = texts(v@);
    assert(t1 =~= t0.insert(p as int, x@));
    assert forall|i: int, j: int| 0 <= i < j < t1.len() implies text_before(#[trigger] t1[i], #[trigger] t1[j]) by {
        if j == p {
        } else if i == p {
            assert(t1[j] == t0[j - 1]);
            if j - 1 > p {
                lemma_text_trans(x@, t0[p as int], t0[j - 1]);
            }
        } else if i < p && j > p {
            assert(t1[j] == t0[j - 1]);
        } else if i > p {
            assert(t1[i] == t0[i - 1] && t1[j] == t0[j - 1]);
        }
    }
    assert(t1.to_set() =~= t0.to_set().insert(x@)) by {
        assert forall|s: Seq<char>| t1.to_set().contains(s) <==> t0.to_set().insert(x@).contains(s) by {
            if t1.to_set().contains(s) {
                let k = choose|k: int| 0 <= k < t1.len() && t1[k] == s;
                if k < p {
                    assert(t0[k] == s);
                } else if k > p {
                    assert(t0[k - 1] == s);
                }
            }
            if t0.to_set().contains(s) {
                let k = choose|k: int| 0 <= k < t0.len() && t0[k] == s;
                if k < p {
                    assert(t1[k] == s);
                } else {
                    assert(t1[k + 1] == s);
                }
            }
            if s == x@ {
                assert(t1[p as int] == s);
            }
        }
    }
}

/// A zone as a library lists it.
#[derive(Debug, Clone)]
pub struct ZoneDetail {
    /// 1-based, as the panel numbers zones.
    pub number: u8,
    pub enabled: bool,
    pub muted: bool,
    /// Why this zone sounds or does not: `on`, `muted`, `grouped`, `off`, or `unused`.
    pub state: String,
    /// Keyboard groups that switch this zone on, if any.
    pub groups: Vec<u8>,
    pub engine: String,
    pub bank: String,
    pub tone: String,
    pub msb: u8,
    pub lsb: u8,
    pub pc: u8,
    pub key_low: u8,
    pub key_high: u8,
    pub velocity_low: u8,
    pub velocity_high: u8,
    pub level: u8,
    pub pan: i8,
    pub transpose: i8,
    pub octave: i8,
    /// 1-based, as the panel numbers MIDI channels.
    pub midi_channel: u8,
    pub arpeggio: bool,
}

/// A saved set of zone switches the player recalls from a pad.
#[derive(Debug, Clone)]
pub struct KeyboardGroupDetail {
    pub number: u8,
    /// 1-based zone numbers this group switches on.
    pub zones: Vec<u8>,
}

/// What a library records of a scene.
#[derive(Debug, Clone)]
pub struct SceneDetail {
    /// The stored tempo, in hundredths of a beat per minute: `12000` is 120.00.
    pub tempo: u16,
    pub level: u8,
    /// Zones with their KBD switch on.
    pub active_zones: usize,
    pub zones: Vec<ZoneDetail>,
    /// Distinct engines the scene's playing zones call for, in zone order.
    pub engines: Vec<String>,
    /// Keyboard switch groups this scene configures.
    pub groups: Vec<KeyboardGroupDetail>,
    /// Bundled user tones this scene needs, by resolved name, in zone order.
    pub user_tones: Vec<String>,
    /// Zones pointing at factory, expansion, or model content the app never substitutes, sorted.
    pub external_refs: Vec<String>,
}

/// Whether tone `t` sits in a user bank: a record of the instrument's own, which a bank file
/// can carry.
pub open spec fn user_bank(t: ToneRef) -> bool {
    let ty = t.spec_tone_type();
    let msb = t.address.msb;
    let lsb = t.address.lsb;
    ||| (ty is ZenCore && lsb < 64)
    ||| ((ty is Drum || ty is SnAp || ty is Vtw) && lsb == 0)
    ||| (ty is SnA && lsb <= 1)
    ||| (ty is SnEp && lsb == 1)
    ||| (ty is VPiano && lsb == 0 && msb == 90)
    ||| (ty is Model && (lsb == 0 || lsb == 64))
    ||| (ty is Acb && lsb == 0)
}

/// A bank is labelled `USER` exactly when it is a user bank.
pub proof fn lemma_user_bank_label(t: ToneRef)
    ensures
        bank_label(t.spec_tone_type(), t.address.msb, t.address.lsb) == Some("USER") <==> user_bank(t),
{
}

/// The bank of `t`, or `raw` for an address no bank is known for.
pub open spec fn bank_text(t: ToneRef) -> Seq<char> {
    match bank_label(t.spec_tone_type(), t.address.msb, t.address.lsb) {
        Some(b) => b@,
        None => "raw"@,
    }
}

/// The name of `t`, or a dash when it has none.
pub open spec fn name_text(t: ToneRef) -> Seq<char> {
    match t.name {
        Some(n) => n@,
        None => "—"@,
    }
}

/// How a tone that is not the user's reads in a dependency list: engine, bank, program, and
/// the name when known, as in `ZEN-Core PR-A PC 004 "Strings"`.
pub open spec fn reference_text(t: ToneRef) -> Seq<char> {
    t.spec_tone_type().spec_label()@ + " "@ + bank_text(t) + " PC "@ + padded_decimal(
        t.address.pc as nat,
        3,
    ) + match t.name {
        Some(n) => " \""@ + n@ + "\""@,
        None => Seq::empty(),
    }
}

/// Whether a zone of a scene with keyboard groups `groups` counts as a dependency: anything but
/// a zone nobody ever configured. A zone switched off may be one pad press from sounding.
pub open spec fn zone_played(groups: Seq<KeyboardGroup>, z: Zone) -> bool {
    !(state_of(groups, z) is Unused)
}

/// Whether `d` is how zone `z` of a scene with keyboard groups `groups` is listed.
pub open spec fn is_zone_detail(groups: Seq<KeyboardGroup>, z: Zone, d: ZoneDetail) -> bool {
    &&& d.number == z.number + 1
    &&& d.enabled == z.enabled
    &&& d.muted == z.muted
    &&& d.state@ == state_of(groups, z).spec_as_str()@
    &&& d.groups@ == crate::model::groups_with(groups, (z.number + 1) as u8)
    &&& d.engine@ == z.tone.spec_tone_type().spec_label()@
    &&& d.bank@ == bank_text(z.tone)
    &&& d.tone@ == name_text(z.tone)
    &&& d.msb == z.tone.address.msb
    &&& d.lsb == z.tone.address.lsb
    &&& d.pc == z.tone.address.pc
    &&& d.key_low == z.key_low
    &&& d.key_high == z.key_high
    &&& d.velocity_low == z.velocity_low
    &&& d.velocity_high == z.velocity_high
    &&& d.level == z.level
    &&& d.pan == z.pan
    &&& d.transpose == z.transpose
    &&& d.octave == z.octave
    &&& d.midi_channel == z.midi_channel + 1
    &&& d.arpeggio == z.arpeggio
}

/// The texts of `xs` without repeats, each where it first appears.
pub open spec fn firsts(xs: Seq<Seq<char>>) -> Seq<Seq<char>>
    decreases xs.len(),
{
    if xs.len() == 0 {
        Seq::empty()
    } else {
        let rest = firsts(xs.drop_last());
        if rest.contains(xs.last()) {
            rest
        } else {
            rest.push(xs.last())
        }
    }
}

/// The engine of each playing zone of `zs`, in order.
pub open spec fn played_engines(groups: Seq<KeyboardGroup>, zs: Seq<Zone>) -> Seq<Seq<char>>
    decreases zs.len(),
{
    if zs.len() == 0 {
        Seq::empty()
    } else {
        let rest = played_engines(groups, zs.drop_last());
        if zone_played(groups, zs.last()) {
            rest.push(zs.last().tone.spec_tone_type().spec_label()@)
        } else {
            rest
        }
    }
}

/// The name of each playing zone's named user tone, in order.
pub open spec fn user_names(groups: Seq<KeyboardGroup>, zs: Seq<Zone>) -> Seq<Seq<char>>
    decreases zs.len(),
{
    if zs.len() == 0 {
        Seq::empty()
    } else {
        let rest = user_names(groups, zs.drop_last());
        let t = zs.last().tone;
        if zone_played(groups, zs.last()) && user_bank(t) && t.name is Some {
            rest.push(t.name->0@)
        } else {
            rest
        }
    }
}

/// How each playing zone that reaches outside the user banks reads as a dependency.
pub open spec fn outside_refs(groups: Seq<KeyboardGroup>, zs: Seq<Zone>) -> Seq<Seq<char>>
    decreases zs.len(),
{
    if zs.len() == 0 {
        Seq::empty()
    } else {
        let rest = outside_refs(groups, zs.drop_last());
        let t = zs.last().tone;
        if zone_played(groups, zs.last()) && !user_bank(t) {
            rest.push(reference_text(t))
        } else {
            rest
        }
    }
}

/// How many zones of `zs` have their KBD switch on.
pub open spec fn enabled_count(zs: Seq<Zone>) -> nat
    decreases zs.len(),
{
    if zs.len() == 0 {
        0
    } else {
        enabled_count(zs.drop_last()) + if zs.last().enabled {
            1nat
        } else {
            0nat
        }
    }
}

/// Whether `d` is what a library records of scene `s`.
pub open spec fn is_scene_detail(s: Scene, d: SceneDetail) -> bool {
    let groups = s.groups@;
    let zs = s.zones@;
    &&& d.tempo == s.tempo
    &&& d.level == s.level
    &&& d.active_zones == enabled_count(zs)
    &&& d.zones@.len() == zs.len()
    &&& forall|i: int| 0 <= i < zs.len() ==> is_zone_detail(groups, zs[i], #[trigger] d.zones@[i])
    &&& texts(d.engines@) == firsts(played_engines(groups, zs))
    &&& d.groups@.len() == groups.len()
    &&& forall|i: int|
        0 <= i < groups.len() ==> (#[trigger] d.groups@[i]).number == groups[i].number && d.groups@[i].zones@
            == groups[i].zones@
    &&& texts(d.user_tones@) == firsts(user_names(groups, zs))
    &&& text_ascending(texts(d.external_refs@))
    &&& texts(d.external_refs@).to_set() == outside_refs(groups, zs).to_set()
}

fn is_user_bank(t: &ToneRef) -> (r: bool)
    ensures
        r == user_bank(*t),
{
    let ty = t.tone_type();
    let msb = t.address.msb;
    let lsb = t.address.lsb;
    (matches!(ty, ToneType::ZenCore) && lsb < 64) || ((matches!(ty, ToneType::Drum) || matches!(ty, ToneType::SnAp)
        || matches!(ty, ToneType::Vtw)) && lsb == 0) || (matches!(ty, ToneType::SnA) && lsb <= 1) || (matches!(
        ty,
        ToneType::SnEp
    ) && lsb == 1) || (matches!(ty, ToneType::VPiano) && lsb == 0 && msb == 90) || (matches!(ty, ToneType::Model)
        && (lsb == 0 || lsb == 64)) || (matches!(ty, ToneType::Acb) && lsb == 0)
}

fn bank_or_raw(t: &ToneRef) -> (s: String)
    ensures
        s@ == bank_text(*t),
{
    let mut s = String::new();
    match t.bank() {
        Some(b) => push_str(&mut s, b),
        None => push_str(&mut s, "raw"),
    }
    s
}

fn name_or_dash(t: &ToneRef) -> (s: String)
    ensures
        s@ == name_text(*t),
{
    let mut s = String::new();
    match t.name() {
        Some(n) => push_str(&mut s, n),
        None => push_str(&mut s, "—"),
    }
    s
}

/// How tone `t` reads as a dependency.
pub fn reference(t: &ToneRef) -> (s: String)
    ensures
        s@ == reference_text(*t),
{
    let mut s = String::new();
    push_str(&mut s, t.tone_type().label());
    push_str(&mut s, " ");
    let b = bank_or_raw(t);
    push_str(&mut s, b.as_str());
    push_str(&mut s, " PC ");
    push_padded_decimal(&mut s, t.address.pc as u64, 3);
    match t.name() {
        Some(n) => {
            push_str(&mut s, " \"");
            push_str(&mut s, n);
            push_str(&mut s, "\"");
        },
        None => {},
    }
    s
}

/// Add `x` to the texts `v` unless it is among them.
fn push_first(v: &mut Vec<String>, x: String)
    ensures
        texts(final(v)@) == if texts(old(v)@).contains(x@) {
            texts(old(v)@)
        } else {
            texts(old(v)@).push(x@)
        },
{
    let mut i: usize = 0;
    while i < v.len()
        invariant
            i <= v@.len(),
            v@ == old(v)@,
            forall|k: int| 0 <= k < i ==> texts(v@)[k] != x@,
        decreases v@.len() - i,
    {
        if same_text(v[i].as_str(), x.as_str()) {
            assert(texts(v@)[i as int] == x@);
            return;
        }
        i = i + 1;
    }
    let ghost before = texts(v@);
    v.push(x);
    assert(texts(v@) =~= before.push(x@));
}

/// What a library records of `scene`: each zone as the panel shows it, the engines and bundled
/// user tones its zones need, and the factory, expansion and model content they reach for.
#[verifier::rlimit(40)]
pub fn scene_detail(scene: &Scene) -> (d: SceneDetail)
    requires
        forall|i: int|
            0 <= i < scene.zones@.len() ==> (#[trigger] scene.zones@[i]).number < 255 && scene.zones@[i].midi_channel
                < 255,
    ensures
        is_scene_detail(*scene, d),
{
    let ghost groups = scene.groups@;
    let ghost zs = scene.zones@;
    let mut engines: Vec<String> = Vec::new();
    let mut user_tones: Vec<String> = Vec::new();
    let mut external: Vec<String> = Vec::new();
    let mut zones: Vec<ZoneDetail> = Vec::new();
    let mut active: usize = 0;
    let mut i: usize = 0;
    assert(texts(engines@) =~= firsts(played_engines(groups, zs.take(0))));
    assert(texts(user_tones@) =~= firsts(user_names(groups, zs.take(0))));
    assert(texts(external@).to_set() =~= outside_refs(groups, zs.take(0)).to_set());
    while i < scene.zones.len()
        invariant
            i <= zs.len(),
            groups == scene.groups@,
            zs == scene.zones@,
            forall|k: int| 0 <= k < zs.len() ==> (#[trigger] zs[k]).number < 255 && zs[k].midi_channel < 255,
            active == enabled_count(zs.take(i as int)),
            active <= i,
            zones@.len() == i,
            forall|k: int| 0 <= k < i ==> is_zone_detail(groups, zs[k], #[trigger] zones@[k]),
            texts(engines@) == firsts(played_engines(groups, zs.take(i as int))),
            texts(user_tones@) == firsts(user_names(groups, zs.take(i as int))),
            text_ascending(texts(external@)),
            texts(external@).to_set() == outside_refs(groups, zs.take(i as int)).to_set(),
        decreases zs.len() - i,
    {
        let zone = &scene.zones[i];
        let tone = &zone.tone;
        assert(zs.take(i + 1).drop_last() =~= zs.take(i as int));
        assert(zs.take(i + 1).last() == zs[i as int]);
        let state = scene.zone_state(zone);
        let number = zone.number + 1;
        let in_groups = scene.groups_containing(number);
        let engine = tone.tone_type().label();
        if state.is_played() {
            let mut e = String::new();
            push_str(&mut e, engine);
            push_first(&mut engines, e);
            proof {
                let before = played_engines(groups, zs.take(i as int));
                assert(played_engines(groups, zs.take(i + 1)) == before.push(engine@));
                assert(before.push(engine@).drop_last() =~= before);
            }
            if is_user_bank(tone) {
                match tone.name() {
                    Some(n) => {
                        let mut u = String::new();
                        push_str(&mut u, n);
                        push_first(&mut user_tones, u);
                        proof {
                            let before = user_names(groups, zs.take(i as int));
                            assert(user_names(groups, zs.take(i + 1)) == before.push(n@));
                            assert(before.push(n@).drop_last() =~= before);
                        }
                    },
                    None => {},
                }
            } else {
                let r = reference(tone);
                let ghost prev = outside_refs(groups, zs.take(i as int));
                insert_text(&mut external, r);
                proof {
                    prev.lemma_push_to_set_commute(reference_text(*tone));
                }
            }
        }
        let mut st = String::new();
        push_str(&mut st, state.as_str());
        let mut en = String::new();
        push_str(&mut en, engine);
        zones.push(ZoneDetail {
            number,
            enabled: zone.enabled,
            muted: zone.muted,
            state: st,
            groups: in_groups,
            engine: en,
            bank: bank_or_raw(tone),
            tone: name_or_dash(tone),
            msb: tone.address.msb,
            lsb: tone.address.lsb,
            pc: tone.address.pc,
            key_low: zone.key_low,
            key_high: zone.key_high,
            velocity_low: zone.velocity_low,
            velocity_high: zone.velocity_high,
            level: zone.level,
            pan: zone.pan,
            transpose: zone.transpose,
            octave: zone.octave,
            midi_channel: zone.midi_channel + 1,
            arpeggio: zone.arpeggio,
        });
        if zone.enabled {
            active = active + 1;
        }
        i = i + 1;
    }
    assert(zs.take(zs.len() as int) =~= zs);
    let mut kg: Vec<KeyboardGroupDetail> = Vec::new();
    let mut j: usize = 0;
    while j < scene.groups.len()
        invariant
            j <= groups.len(),
            groups == scene.groups@,
            kg@.len() == j,
            forall|k: int|
                0 <= k < j ==> (#[trigger] kg@[k]).number == groups[k].number && kg@[k].zones@ == groups[k].zones@,
        decreases groups.len() - j,
    {
        let g = &scene.groups[j];
        kg.push(KeyboardGroupDetail { number: g.number, zones: g.zones.clone() });
        j = j + 1;
    }
    SceneDetail {
        tempo: scene.tempo,
        level: scene.level,
        active_zones: active,
        zones,
        engines,
        groups: kg,
        user_tones,
        external_refs: external,
    }
}

/// A scene of a file, ready to become a library item.
#[derive(Debug, Clone)]
pub struct SceneCandidate {
    /// 1-based position of the scene in the file.
    pub number: usize,
    pub name: String,
    pub memo: String,
    /// The first engine its playing zones call for, or a dash when none plays.
    pub engine: String,
    pub detail: SceneDetail,
    /// The stored scene record, what its library identity is taken from.
    pub record: Vec<u8>,
}

/// Scene record `k` of a scene area body `body`.
pub open spec fn scene_record(body: Seq<u8>, k: int) -> Seq<u8> {
    body.subrange(scenes_in(body)[k], record_end(body.len() as int, scenes_in(body)[k], le32(body, 4) as int))
}

/// The positions among the first `n` scenes of `body` a library takes in: those not named as an
/// unused slot.
pub open spec fn kept_scenes(body: Seq<u8>, n: int) -> Seq<int>
    decreases n,
{
    if n <= 0 {
        Seq::empty()
    } else if is_placeholder(text_at(scene_record(body, n - 1), 0, NAME_LEN as int)) {
        kept_scenes(body, n - 1)
    } else {
        kept_scenes(body, n - 1).push(n - 1)
    }
}

/// Whether `c` is the candidate for scene `k` of file `s`, stored as `rec`.
pub open spec fn is_scene_candidate(c: SceneCandidate, k: int, rec: Seq<u8>, s: Seq<u8>) -> bool {
    &&& c.number == k + 1
    &&& c.name@ == text_at(rec, 0, NAME_LEN as int)
    &&& c.memo@ == text_at(rec, COMMENT_OFFSET as int, COMMENT_LEN as int)
    &&& c.record@ == rec
    &&& c.engine@ == if c.detail.engines@.len() > 0 {
        c.detail.engines@[0]@
    } else {
        "—"@
    }
    &&& exists|sc: Scene| #[trigger] decodes_scene(sc, rec, s) && is_scene_detail(sc, c.detail)
}

proof fn lemma_present_below(r: Seq<u8>, n: int)
    ensures
        forall|k: int| 0 <= k < present_zones(r, n).len() ==> 0 <= #[trigger] present_zones(r, n)[k] < n,
    decreases n,
{
    if n > 0 {
        lemma_present_below(r, n - 1);
        let prev = present_zones(r, n - 1);
        if crate::codec::zone_present(r, n - 1) {
            assert forall|k: int| 0 <= k < prev.push(n - 1).len() implies 0 <= #[trigger] prev.push(n - 1)[k] < n by {
                if k < prev.len() {
                    assert(prev.push(n - 1)[k] == prev[k]);
                }
            }
        }
    }
}

/// The scenes a file offers its library, in file order: every scene not named as an unused
/// slot, with what a library records of it.
#[verifier::rlimit(40)]
pub fn scene_candidates(raw: &Raw) -> (r: Result<Vec<SceneCandidate>>)
    ensures
        envelope_error(raw@) is Some ==> r is Err,
        envelope_error(raw@) is None ==> match scene_area(raw@) {
            Err(e) => r == Err::<Vec<SceneCandidate>, Error>(e),
            Ok((start, body)) => if le32(body, 4) == 0 {
                r == Err::<Vec<SceneCandidate>, Error>(Error::ZeroRecordSize { tag: prfa_tag() })
            } else {
                let kept = kept_scenes(body, scenes_in(body).len() as int);
                r matches Ok(v) && v@.len() == kept.len() && forall|k: int|
                    0 <= k < v@.len() ==> is_scene_candidate(
                        #[trigger] v@[k],
                        kept[k],
                        scene_record(body, kept[k]),
                        raw@,
                    )
            },
        },
{
    let scenes = read_scenes(raw)?;
    let records = read_scene_records(raw)?;
    let ghost body = scene_area(raw@)->Ok_0.1;
    let mut out: Vec<SceneCandidate> = Vec::new();
    let mut i: usize = 0;
    while i < scenes.len()
        invariant
            envelope_error(raw@) is None,
            scene_area(raw@) is Ok,
            body == scene_area(raw@)->Ok_0.1,
            le32(body, 4) != 0,
            scenes@.len() == scenes_in(body).len(),
            records@.len() == scenes_in(body).len(),
            forall|k: int| 0 <= k < scenes@.len() ==> decodes_scene(#[trigger] scenes@[k], scene_record(body, k), raw@),
            forall|k: int| 0 <= k < records@.len() ==> (#[trigger] records@[k])@ == scene_record(body, k),
            i <= scenes@.len(),
            out@.len() == kept_scenes(body, i as int).len(),
            forall|k: int|
                0 <= k < out@.len() ==> is_scene_candidate(
                    #[trigger] out@[k],
                    kept_scenes(body, i as int)[k],
                    scene_record(body, kept_scenes(body, i as int)[k]),
                    raw@,
                ),
        decreases scenes@.len() - i,
    {
        let scene = &scenes[i];
        let ghost rec = scene_record(body, i as int);
        assert(decodes_scene(*scene, rec, raw@));
        let ghost prev = kept_scenes(body, i as int);
        if !is_placeholder_name(scene.name.as_str()) {
            proof {
                lemma_present_below(rec, ZONE_COUNT as int);
                assert forall|z: int| 0 <= z < scene.zones@.len() implies (#[trigger] scene.zones@[z]).number < 255
                    && scene.zones@[z].midi_channel < 255 by {
                    assert(present_zones(rec, ZONE_COUNT as int)[z] < ZONE_COUNT);
                }
            }
            let detail = scene_detail(scene);
            let stored = crate::bytes::copy_range(records[i], 0, records[i].len());
            assert(stored@ =~= rec);
            let mut engine = String::new();
            if detail.engines.len() > 0 {
                push_str(&mut engine, detail.engines[0].as_str());
            } else {
                push_str(&mut engine, "—");
            }
            let c = SceneCandidate {
                number: i + 1,
                name: scene.name.clone(),
                memo: scene.comment.clone(),
                engine,
                detail,
                record: stored,
            };
            assert(decodes_scene(*scene, rec, raw@) && is_scene_detail(*scene, c.detail));
            let ghost before = out@;
            out.push(c);
            proof {
                assert(kept_scenes(body, i + 1) == prev.push(i as int));
                assert forall|k: int| 0 <= k < out@.len() implies is_scene_candidate(
                    #[trigger] out@[k],
                    kept_scenes(body, i + 1)[k],
                    scene_record(body, kept_scenes(body, i + 1)[k]),
                    raw@,
                ) by {
                    if k < before.len() {
                        assert(out@[k] == before[k]);
                    }
                }
            }
        } else {
            assert(kept_scenes(body, i + 1) == prev);
        }
        i = i + 1;
    }
    Ok(out)
}

/// How each switched-on zone of `zs` reads as a reference, in zone order.
pub open spec fn enabled_refs(zs: Seq<Zone>) -> Seq<Seq<char>>
    decreases zs.len(),
{
    if zs.len() == 0 {
        Seq::empty()
    } else {
        let rest = enabled_refs(zs.drop_last());
        if zs.last().enabled {
            rest.push(reference_text(zs.last().tone))
        } else {
            rest
        }
    }
}

/// What the switched-on zones of `scene` play, each reference once, in zone order: the one-line
/// summary of a scene in a listing.
pub fn enabled_references(scene: &Scene) -> (v: Vec<String>)
    ensures
        texts(v@) == firsts(enabled_refs(scene.zones@)),
{
    let ghost zs = scene.zones@;
    let mut v: Vec<String> = Vec::new();
    let mut i: usize = 0;
    assert(texts(v@) =~= firsts(enabled_refs(zs.take(0))));
    while i < scene.zones.len()
        invariant
            i <= zs.len(),
            zs == scene.zones@,
            texts(v@) == firsts(enabled_refs(zs.take(i as int))),
        decreases zs.len() - i,
    {
        let zone = &scene.zones[i];
        assert(zs.take(i + 1).drop_last() =~= zs.take(i as int));
        assert(zs.take(i + 1).last() == zs[i as int]);
        if zone.enabled {
            let r = reference(&zone.tone);
            let ghost x = r@;
            push_first(&mut v, r);
            proof {
                let before = enabled_refs(zs.take(i as int));
                assert(enabled_refs(zs.take(i + 1)) == before.push(x));
                assert(before.push(x).drop_last() =~= before);
            }
        }
        i = i + 1;
    }
    assert(zs.take(zs.len() as int) =~= zs);
    v
}

} // verus!

verus! {

/// A library item's details: a scene's or a tone's.
#[derive(Debug, Clone)]
pub enum AssetDetail {
    Scene(SceneDetail),
    Tone(crate::library::ToneDetail),
}

/// The one-line summary of a library item's details.
pub open spec fn summary_text(d: AssetDetail) -> Seq<char> {
    match d {
        AssetDetail::Scene(s) => crate::report::bpm_text(s.tempo) + " BPM · "@ + crate::text::decimal(
            s.active_zones as nat,
        ) + " zone"@ + crate::render::plural_text(s.active_zones as int),
        AssetDetail::Tone(t) => if t.area@.len() == 0 {
            t.engine@
        } else {
            t.engine@ + " · "@ + t.area@
        },
    }
}

impl AssetDetail {
    /// A one-line summary for the list row: a scene's tempo and zones, a tone's engine and area.
    pub fn summary(&self) -> (s: String)
        ensures
            s@ == summary_text(*self),
    {
        let mut s = String::new();
        match self {
            AssetDetail::Scene(d) => {
                crate::text::push_decimal(&mut s, (d.tempo / 100) as u64);
                push_str(&mut s, ".");
                push_padded_decimal(&mut s, (d.tempo % 100) as u64, 2);
                push_str(&mut s, " BPM · ");
                crate::text::push_decimal(&mut s, d.active_zones as u64);
                push_str(&mut s, " zone");
                push_str(&mut s, crate::render::plural(d.active_zones));
            },
            AssetDetail::Tone(t) => {
                push_str(&mut s, t.engine.as_str());
                if t.area.unicode_len() > 0 {
                    push_str(&mut s, " · ");
                    push_str(&mut s, t.area.as_str());
                }
            },
        }
        s
    }
}

} // verus!
