//! Joining a sampled tone bank with itself: when its samples are numbered densely in the order
//! its tones first play them, and no two of them hold the same audio, every sample is found
//! where it already is, every tone keeps its record, and the second copy adds nothing.

use vstd::prelude::*;

use super::join::{empty_join, first_audio, join_steps, slot_step, slot_steps, tone_entry, tone_info, tone_list, tone_step, JoinView};
use super::load::{ToneBankView, Wave};
use super::pick::{add_all, first_wave, pata, samples_of};
use crate::container::pat::{in_remapped_partial, number_at, partial_present, remapped_partial};
use crate::container::remapped;
use crate::repackage::rebuild::Entry;
use crate::container::slots::push_new;

verus! {

/// The first joined sample whose audio is `b` is the `i`th when the `i`th holds it and none
/// before does.
proof fn lemma_first_audio_at(ws: Seq<Wave>, b: Seq<u8>, i: int)
    requires
        0 <= i < ws.len(),
        ws[i].2 == b,
        forall|j: int| 0 <= j < i ==> (#[trigger] ws[j]).2 != b,
    ensures
        first_audio(ws, b) == Some(i),
    decreases ws.len(),
{
    if i < ws.len() - 1 {
        lemma_first_audio_at(ws.drop_last(), b, i);
    } else {
        lemma_first_audio_none(ws.drop_last(), b);
    }
}

/// No joined sample holds audio `b` when none of them does.
proof fn lemma_first_audio_none(ws: Seq<Wave>, b: Seq<u8>)
    requires
        forall|j: int| 0 <= j < ws.len() ==> (#[trigger] ws[j]).2 != b,
    ensures
        first_audio(ws, b) is None,
    decreases ws.len(),
{
    if ws.len() > 0 {
        lemma_first_audio_none(ws.drop_last(), b);
    }
}

/// What `add_all` keeps: `seen` first, then each new element once.
proof fn lemma_add_all_prefix(seen: Seq<u16>, xs: Seq<u16>)
    ensures
        add_all(seen, xs).len() >= seen.len(),
        forall|i: int| 0 <= i < seen.len() ==> #[trigger] add_all(seen, xs)[i] == seen[i],
        forall|x: u16| #[trigger] add_all(seen, xs).contains(x) <==> seen.contains(x) || xs.contains(x),
    decreases xs.len(),
{
    if xs.len() > 0 {
        lemma_add_all_prefix(seen, xs.drop_last());
        let prev = add_all(seen, xs.drop_last());
        assert forall|x: u16| #[trigger] add_all(seen, xs).contains(x) <==> seen.contains(x) || xs.contains(x) by {
            if xs.drop_last().contains(x) {
                let k = choose|k: int| 0 <= k < xs.drop_last().len() && xs.drop_last()[k] == x;
                assert(xs[k] == x);
            }
            if xs.contains(x) && x != xs.last() {
                let k = choose|k: int| 0 <= k < xs.len() && xs[k] == x;
                assert(xs.drop_last()[k] == x);
            }
            if !prev.contains(xs.last()) {
                if prev.push(xs.last()).contains(x) && x != xs.last() {
                    let k = choose|k: int| 0 <= k < prev.push(xs.last()).len() && prev.push(xs.last())[k] == x;
                    assert(prev[k] == x);
                }
                if prev.contains(x) {
                    let k = choose|k: int| 0 <= k < prev.len() && prev[k] == x;
                    assert(prev.push(xs.last())[k] == x);
                }
                assert(prev.push(xs.last())[prev.len() as int] == xs.last());
            }
        }
    }
}

/// Two little-endian words agree exactly when their bytes do.
proof fn lemma_le16_bytes(s: Seq<u8>, t: Seq<u8>, at: int)
    requires
        0 <= at,
        at + 2 <= s.len(),
        at + 2 <= t.len(),
        crate::bytes::le16(s, at) == crate::bytes::le16(t, at),
    ensures
        s[at] == t[at],
        s[at + 1] == t[at + 1],
{
    let a0 = s[at];
    let a1 = s[at + 1];
    let b0 = t[at];
    let b1 = t[at + 1];
    assert(a0 as int + a1 as int * 256 < 65536);
    assert(b0 as int + b1 as int * 256 < 65536);
    assert(a0 as int + a1 as int * 256 == b0 as int + b1 as int * 256);
}

/// `add_all` over a sequence split at `q` is `add_all` over its halves in turn.
proof fn lemma_add_all_split(seen: Seq<u16>, xs: Seq<u16>, q: int)
    requires
        0 <= q <= xs.len(),
    ensures
        add_all(seen, xs) == add_all(add_all(seen, xs.take(q)), xs.skip(q)),
    decreases xs.len(),
{
    if q == xs.len() {
        assert(xs.take(q) =~= xs);
        assert(xs.skip(q) =~= Seq::<u16>::empty());
    } else {
        lemma_add_all_split(seen, xs.drop_last(), q);
        assert(xs.drop_last().take(q) =~= xs.take(q));
        assert(xs.skip(q).drop_last() =~= xs.drop_last().skip(q));
        assert(xs.skip(q).last() == xs.last());
    }
}

/// The slots the first `k` tones of `a` play, in the order first played, each once.
pub open spec fn used_slots(a: ToneBankView, k: int) -> Seq<u16>
    decreases k,
{
    if k <= 0 {
        Seq::empty()
    } else {
        add_all(used_slots(a, k - 1), samples_of(a, k - 1))
    }
}

/// The audio bank `a` holds for its sample slot `s` (from 1).
pub open spec fn audio_of(a: ToneBankView, s: int) -> Seq<u8> {
    a.waves[first_wave(a.waves, s - 1)->Some_0].2
}

/// Whether the samples of bank `a` are numbered 1, 2, … in the order its tones first play them,
/// each with its audio and its slot record, and no two hold the same audio.
pub open spec fn dense_samples(a: ToneBankView) -> bool {
    let u = used_slots(a, a.family[0].records.len() as int);
    &&& forall|i: int| 0 <= i < u.len() ==> #[trigger] u[i] == i + 1
    &&& forall|s: int| 1 <= s <= u.len() ==> #[trigger] first_wave(a.waves, s - 1) is Some
    &&& u.len() > 0 ==> (a.slots matches Some(l) && u.len() <= l.records.len())
    &&& forall|s: int, t: int|
        1 <= s < t <= u.len() ==> #[trigger] audio_of(a, s) != #[trigger] audio_of(a, t)
}

/// Whether the joined samples of `st` are the audio of `a`'s slots 1 to `n`, in order.
pub open spec fn waves_in_place(a: ToneBankView, st: JoinView, n: int) -> bool {
    &&& st.waves.len() == n
    &&& forall|i: int| 0 <= i < n ==> (#[trigger] st.waves[i]).2 == audio_of(a, i + 1)
}

/// Carrying slots already numbered in place moves none of them and adds each new one next.
proof fn lemma_slots_in_place(a: ToneBankView, st: JoinView, u0: Seq<u16>, slots: Seq<u16>, total: int, q: int)
    requires
        dense_samples(a),
        total == used_slots(a, a.family[0].records.len() as int).len(),
        0 <= q <= slots.len(),
        add_all(u0, slots).len() <= total,
        forall|i: int| 0 <= i < add_all(u0, slots).len() ==> #[trigger] add_all(u0, slots)[i] == i + 1,
        waves_in_place(a, st, u0.len() as int),
    ensures
        slot_steps(a, st, slots, q) matches Ok((s2, m)) && s2.entries == st.entries && s2.infos == st.infos
            && waves_in_place(a, s2, add_all(u0, slots.take(q)).len() as int) && (forall|x: u16|
            #[trigger] m.contains_key(x) ==> m[x] == x) && (forall|j: int| 0 <= j < q ==> m.contains_key(#[trigger] slots[j])),
    decreases q,
{
    if q > 0 {
        lemma_slots_in_place(a, st, u0, slots, total, q - 1);
        let (s2, m) = slot_steps(a, st, slots, q - 1)->Ok_0;
        let x = slots[q - 1];
        let cur = add_all(u0, slots.take(q - 1));
        assert(slots.take(q).drop_last() =~= slots.take(q - 1));
        assert(slots.take(q).last() == x);
        let next = add_all(u0, slots.take(q));
        assert(next == push_new(cur, x));
        let full = add_all(u0, slots);
        lemma_add_all_split(u0, slots, q);
        lemma_add_all_prefix(next, slots.skip(q));
        lemma_add_all_prefix(cur, slots.take(q).drop_last().skip(0));
        lemma_add_all_prefix(u0, slots);
        assert(slots.contains(x));
        assert(full.contains(x));
        let idx = choose|i: int| 0 <= i < full.len() && full[i] == x;
        assert(x == idx + 1);
        assert(1 <= x <= total);
        assert(first_wave(a.waves, x - 1) is Some);
        let w = a.waves[first_wave(a.waves, x - 1)->Some_0];
        assert(w.2 == audio_of(a, x as int));
        if cur.contains(x) {
            let j = choose|j: int| 0 <= j < cur.len() && cur[j] == x;
            assert(next == cur);
            assert(full[j] == cur[j]);
            assert(x == j + 1);
            assert forall|i: int| 0 <= i < x - 1 implies (#[trigger] s2.waves[i]).2 != w.2 by {
                assert(s2.waves[i].2 == audio_of(a, i + 1));
                assert(audio_of(a, i + 1) != audio_of(a, x as int));
            }
            lemma_first_audio_at(s2.waves, w.2, x - 1);
            assert(slot_step(a, s2, m, x) == Ok::<(JoinView, Map<u16, u16>), crate::Error>((s2, m.insert(x, x))));
        } else {
            assert(next == cur.push(x));
            assert(full[cur.len() as int] == next[cur.len() as int]);
            assert(x == cur.len() + 1);
            assert forall|i: int| 0 <= i < s2.waves.len() implies (#[trigger] s2.waves[i]).2 != w.2 by {
                assert(s2.waves[i].2 == audio_of(a, i + 1));
                assert(audio_of(a, i + 1) != audio_of(a, x as int));
            }
            lemma_first_audio_none(s2.waves, w.2);
        }
    }
}

/// A tone record renumbered through a map that moves nothing is the record itself.
proof fn lemma_remapped_in_place(old: Seq<u8>, new: Seq<u8>, m: Map<u16, u16>)
    requires
        remapped(pata(), old, new, m),
        forall|x: u16| #[trigger] m.contains_key(x) ==> m[x] == x,
    ensures
        new == old,
{
    assert forall|i: int| 0 <= i < old.len() implies new[i] == old[i] by {
        if in_remapped_partial(old, m, i) {
            let p = choose|p: int| remapped_partial(old, m, p) && number_at(p) <= i < number_at(p) + 2;
            assert(partial_present(old, p));
            lemma_le16_bytes(new, old, number_at(p));
        }
    }
    assert(new =~= old);
}

/// The used slots of the first `k` tones lead those of the first `j`, for `k <= j`.
proof fn lemma_used_prefix(a: ToneBankView, k: int, j: int)
    requires
        0 <= k <= j,
    ensures
        used_slots(a, k).len() <= used_slots(a, j).len(),
        forall|i: int| 0 <= i < used_slots(a, k).len() ==> #[trigger] used_slots(a, j)[i] == used_slots(a, k)[i],
    decreases j - k,
{
    if k < j {
        lemma_used_prefix(a, k, j - 1);
        lemma_add_all_prefix(used_slots(a, j - 1), samples_of(a, j - 1));
    }
}

/// Whether `st` holds the first `k` tones of `a` unchanged, with the samples they play in place.
pub open spec fn own_so_far(a: ToneBankView, st: JoinView, k: int) -> bool {
    &&& st.entries == Seq::new(k as nat, |i: int| tone_entry(a.family, i))
    &&& st.infos == Seq::new(k as nat, |i: int| tone_info(a.family, i))
    &&& waves_in_place(a, st, used_slots(a, k).len() as int)
}

/// Whether bank `a` has engine areas and holds no tone twice.
pub open spec fn distinct_tones(a: ToneBankView) -> bool {
    &&& a.family.len() > 0
    &&& forall|i: int, j: int|
        0 <= i < j < a.family[0].records.len() ==> tone_entry(a.family, i) != tone_entry(a.family, j)
}

proof fn lemma_tone_in_place(a: ToneBankView, st: JoinView, k: int, first: Seq<u8>)
    requires
        distinct_tones(a),
        dense_samples(a),
        0 <= k < a.family[0].records.len(),
        own_so_far(a, st, k),
        tone_step(a, st, k, first).1,
    ensures
        tone_step(a, st, k, first).0 matches Ok(s2) && own_so_far(a, s2, k + 1),
{
    let n = a.family[0].records.len() as int;
    let total = used_slots(a, n).len() as int;
    let entry = tone_entry(a.family, k);
    assert(!st.entries.contains(entry)) by {
        if st.entries.contains(entry) {
            let i = choose|i: int| 0 <= i < st.entries.len() && st.entries[i] == entry;
            assert(st.entries[i] == tone_entry(a.family, i));
        }
    }
    let slots = samples_of(a, k);
    let u0 = used_slots(a, k);
    assert(used_slots(a, k + 1) == add_all(u0, slots));
    lemma_used_prefix(a, k + 1, n);
    assert forall|i: int| 0 <= i < add_all(u0, slots).len() implies #[trigger] add_all(u0, slots)[i] == i + 1 by {
        assert(used_slots(a, n)[i] == used_slots(a, k + 1)[i]);
    }
    lemma_slots_in_place(a, st, u0, slots, total, slots.len() as int);
    assert(slots.take(slots.len() as int) =~= slots);
    let (s2, m) = slot_steps(a, st, slots, slots.len() as int)->Ok_0;
    if slots.len() > 0 {
        lemma_remapped_in_place(entry[0], first, m);
    }
    assert(entry.update(0, first) =~= entry);
    let next = JoinView { entries: s2.entries.push(entry.update(0, first)), infos: s2.infos.push(tone_info(a.family, k)), ..s2 };
    assert(next.entries =~= Seq::new((k + 1) as nat, |i: int| tone_entry(a.family, i)));
    assert(next.infos =~= Seq::new((k + 1) as nat, |i: int| tone_info(a.family, i)));
}

proof fn lemma_join_self_in_place(a: ToneBankView, firsts: Seq<Seq<u8>>, k: int)
    requires
        distinct_tones(a),
        dense_samples(a),
        0 <= k <= 2 * a.family[0].records.len(),
        join_steps(a, a, tone_list(a, a), firsts, k).1,
    ensures
        join_steps(a, a, tone_list(a, a), firsts, k).0 matches Ok(st) && own_so_far(
            a,
            st,
            if k < a.family[0].records.len() {
                k
            } else {
                a.family[0].records.len() as int
            },
        ),
    decreases k,
{
    let n = a.family[0].records.len() as int;
    let tones = tone_list(a, a);
    if k == 0 {
        assert(empty_join().entries =~= Seq::new(0, |i: int| tone_entry(a.family, i)));
        assert(empty_join().infos =~= Seq::new(0, |i: int| tone_info(a.family, i)));
    } else {
        lemma_join_self_in_place(a, firsts, k - 1);
        let st = join_steps(a, a, tones, firsts, k - 1).0->Ok_0;
        if k - 1 < n {
            assert(tones[k - 1] == (false, k - 1));
            lemma_tone_in_place(a, st, k - 1, firsts[k - 1]);
        } else {
            assert(tones[k - 1] == (true, k - 1 - n));
            let entry = tone_entry(a.family, k - 1 - n);
            assert(st.entries[k - 1 - n] == entry);
            assert(st.entries.contains(entry));
        }
    }
}

/// Joining a tone bank with itself leaves exactly its own tones, in order, each record
/// unchanged, also when its tones play user samples: provided it holds no tone twice, its
/// samples are numbered 1, 2, … in the order its tones first play them, each with its audio and
/// slot record, and no two of them hold the same audio.
pub proof fn law_join_sampled_with_itself(a: ToneBankView, firsts: Seq<Seq<u8>>)
    requires
        distinct_tones(a),
        dense_samples(a),
        join_steps(a, a, tone_list(a, a), firsts, tone_list(a, a).len() as int).1,
    ensures
        join_steps(a, a, tone_list(a, a), firsts, tone_list(a, a).len() as int).0 matches Ok(js)
            && js.entries == Seq::new(a.family[0].records.len(), |i: int| tone_entry(a.family, i))
            && js.infos == Seq::new(a.family[0].records.len(), |i: int| tone_info(a.family, i)),
{
    lemma_join_self_in_place(a, firsts, tone_list(a, a).len() as int);
}

} // verus!
