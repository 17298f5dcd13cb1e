//! `SVD` → `SVZ`: lifting a user tone out of a backup with the audio it plays.
//!
//! An `.svz` is the only envelope that carries user sample audio. A scene bank stores slot
//! references, so a sampled sound that lives in somebody's backup cannot be shared without going
//! back to the instrument. This builds that file instead: the chosen tone records, their sample
//! references renumbered densely from 1 in slot order, and the samples they play converted out
//! of the backup's `SMPa`/`SMPd` into the `USPa`/`USDa` an SVZ holds. A tone record crosses
//! envelopes unchanged but for those numbers.

use std::collections::BTreeMap;

use vstd::prelude::*;

use crate::address::{row_tag, row_with_tag, spec_for_tag, tag4};
use crate::bytes::le32;
use crate::container::records::whole_records;
use crate::container::slots::{ascending, insert_sorted};
use crate::container::svd::{envelope_error, parses_as};
use crate::container::{record_slots, remap_sample_slots_of, remapped, sample_slots_of, Area, Kind, Raw, Svd};
use crate::diff::record_of;
use crate::repackage::{run_map, table_in};
use crate::samplebank::{
    dif_piece, preamble, record_area, record_body, sample_areas, sample_bodies, svz_preamble, zcor,
};
use crate::tonebank::layout::{assemble, svz_outcome};
use crate::tonebank::load::{pieces_view, AreaOut};
use crate::{Error, Result};

verus! {

broadcast use vstd::laws_cmp::group_laws_cmp;

/// Where each area sits in an instrument-written tone export.
pub open spec fn tone_order() -> Seq<[u8; 4]> {
    seq![
        [0x44u8, 0x49, 0x46, 0x61],
        [0x50u8, 0x41, 0x54, 0x61],
        [0x52u8, 0x48, 0x59, 0x61],
        [0x49u8, 0x4e, 0x53, 0x61],
        [0x55u8, 0x53, 0x50, 0x61],
        [0x4du8, 0x53, 0x50, 0x61],
        [0x55u8, 0x53, 0x44, 0x61],
    ]
}

/// The areas a tone of bank row `row` is stored across: a ZEN-Core tone in `PATa`, a drum kit in
/// `RHYa` with its instrument set in `INSa`.
pub open spec fn tone_tags(row: int) -> Seq<Seq<u8>> {
    if row == 0 {
        seq![tag4('P', 'A', 'T', 'a')]
    } else {
        seq![tag4('R', 'H', 'Y', 'a'), tag4('I', 'N', 'S', 'a')]
    }
}

/// Whether record `index` of area `tag` of file `s` plays sample slot `x`.
pub open spec fn plays(s: Seq<u8>, areas: Seq<Area>, tag: Seq<u8>, index: int, x: u16) -> bool {
    table_in(s, areas, tag) matches Ok(Some(b)) && 0 <= index < whole_records(b) && record_slots(
        tag,
        record_of(b, index),
    ).contains(x)
}

/// The sample slots the chosen tones play, across the areas `tags` they are stored in.
pub open spec fn closure_of(s: Seq<u8>, areas: Seq<Area>, tags: Seq<Seq<u8>>, indexes: Seq<usize>) -> Set<u16> {
    Set::new(
        |x: u16|
            exists|t: int, k: int|
                0 <= t < tags.len() && 0 <= k < indexes.len() && #[trigger] plays(s, areas, tags[t], indexes[k] as int, x),
    )
}

/// Why the records `indexes` of area `tag` of file `s` cannot be taken, if they cannot.
pub open spec fn tone_area_error(s: Seq<u8>, areas: Seq<Area>, tag: [u8; 4], indexes: Seq<usize>) -> Option<Error>
    decreases indexes.len(),
{
    match table_in(s, areas, tag@) {
        Err(e) => Some(e),
        Ok(None) => Some(Error::NoSuchArea { tag }),
        Ok(Some(b)) => if indexes.len() == 0 {
            None
        } else {
            match tone_area_error(s, areas, tag, indexes.drop_last()) {
                Some(e) => Some(e),
                None => if indexes.last() >= whole_records(b) {
                    Some(
                        Error::ExportToneOutOfRange {
                            tag,
                            index: indexes.last(),
                            count: whole_records(b) as usize,
                        },
                    )
                } else {
                    None
                },
            }
        },
    }
}

/// The first area among `tags` whose chosen records cannot be taken, with why.
pub open spec fn tone_error(s: Seq<u8>, areas: Seq<Area>, tags: Seq<[u8; 4]>, indexes: Seq<usize>) -> Option<Error>
    decreases tags.len(),
{
    if tags.len() == 0 {
        None
    } else {
        match tone_error(s, areas, tags.drop_last(), indexes) {
            Some(e) => Some(e),
            None => tone_area_error(s, areas, tags.last(), indexes),
        }
    }
}

/// Whether `body` is area `tag` of file `s` cut down to its records `indexes`, in that order,
/// each with its sample references renumbered through `m`.
pub open spec fn tone_body(s: Seq<u8>, areas: Seq<Area>, tag: Seq<u8>, indexes: Seq<usize>, m: Map<u16, u16>, body: Seq<u8>) -> bool {
    table_in(s, areas, tag) matches Ok(Some(b)) && exists|news: Seq<Seq<u8>>|
        #![trigger record_body(news, le32(b, 4) as nat)]
        news.len() == indexes.len() && (forall|k: int|
            0 <= k < indexes.len() ==> #[trigger] remapped(tag, record_of(b, indexes[k] as int), news[k], m))
            && body == record_body(news, le32(b, 4) as nat)
}

/// Whether `bodies` are the tone areas `tags` of file `s` cut down to records `indexes`,
/// renumbered through `m`.
pub open spec fn tone_bodies(
    s: Seq<u8>,
    areas: Seq<Area>,
    tags: Seq<[u8; 4]>,
    indexes: Seq<usize>,
    m: Map<u16, u16>,
    bodies: Seq<Seq<u8>>,
) -> bool {
    bodies.len() == tags.len() && forall|t: int|
        0 <= t < tags.len() ==> #[trigger] tone_body(s, areas, tags[t]@, indexes, m, bodies[t])
}

/// The areas of a tone export: `DIFa`, the tone areas `tags` with their bodies, then the sample
/// areas when samples travel.
pub open spec fn tone_pieces(
    tags: Seq<[u8; 4]>,
    bodies: Seq<Seq<u8>>,
    samples: Option<(Seq<u8>, Seq<u8>)>,
) -> Seq<(Seq<u8>, Seq<u8>, Seq<u8>)> {
    seq![dif_piece()] + Seq::new(tags.len(), |t: int| (tags[t]@, zcor(), bodies[t])) + match samples {
        None => Seq::empty(),
        Some((u, d)) => seq![(tag4('U', 'S', 'P', 'a'), zcor(), u), (tag4('U', 'S', 'D', 'a'), zcor(), d)],
    }
}

/// Whether `r` is what exporting records `indexes` of the tone areas `tags` of backup `s`
/// (areas `areas`) gives, when the slots their tones play are the ascending `slots`: the first
/// area or record that cannot be taken, or the samples that cannot be carried; otherwise the SVZ
/// of the records, renumbered densely from 1 in slot order, and those samples, laid out and
/// checked. The renumbered records can only be one thing.
pub open spec fn tone_export_outcome(
    r: Result<Raw>,
    s: Seq<u8>,
    areas: Seq<Area>,
    tags: Seq<[u8; 4]>,
    indexes: Seq<usize>,
    slots: Seq<u16>,
) -> bool {
    let m = run_map(slots, 1, slots.len() as int);
    match tone_error(s, areas, tags, indexes) {
        Some(e) => r == Err::<Raw, Error>(e),
        None => {
            let samples: Result<Option<(Seq<u8>, Seq<u8>)>> = if slots.len() == 0 {
                Ok(None)
            } else {
                match sample_bodies(s, areas, slots.map_values(|x: u16| (x - 1) as usize)) {
                    Err(e) => Err(e),
                    Ok(b) => Ok(Some(b)),
                }
            };
            match samples {
                Err(e) => r == Err::<Raw, Error>(e),
                Ok(sb) => (exists|bodies: Seq<Seq<u8>>| #[trigger] tone_bodies(s, areas, tags, indexes, m, bodies))
                    && forall|bodies: Seq<Seq<u8>>| #[trigger]
                    tone_bodies(s, areas, tags, indexes, m, bodies) ==> svz_outcome(
                        r,
                        svz_preamble(),
                        tone_order(),
                        tone_pieces(tags, bodies, sb),
                    ),
            }
        },
    }
}

} // verus!

verus! {

/// Whether record `indexes[k2]` of area `tags[t2]` plays `x`, for some pair before `(t, k)`.
pub open spec fn plays_before(
    s: Seq<u8>,
    areas: Seq<Area>,
    tags: Seq<Seq<u8>>,
    indexes: Seq<usize>,
    t: int,
    k: int,
    x: u16,
) -> bool {
    exists|t2: int, k2: int|
        0 <= t2 < tags.len() && 0 <= k2 < indexes.len() && (t2 < t || (t2 == t && k2 < k))
            && #[trigger] plays(s, areas, tags[t2], indexes[k2] as int, x)
}

/// Every sample slot the records `indexes` of the areas `tags` play, ascending.
fn closure(raw: &Raw, svd: &Svd, tags: &Vec<[u8; 4]>, indexes: &[usize]) -> (v: Vec<u16>)
    requires
        parses_as(*svd, raw@),
    ensures
        ascending(v@),
        v@.to_set() == closure_of(raw@, svd.areas@, tags@.map_values(|t: [u8; 4]| t@), indexes@),
{
    let ghost tv = tags@.map_values(|t: [u8; 4]| t@);
    let mut v: Vec<u16> = Vec::new();
    let mut t: usize = 0;
    assert(v@.to_set() =~= Set::new(|x: u16| plays_before(raw@, svd.areas@, tv, indexes@, 0, 0, x)));
    while t < tags.len()
        invariant
            t <= tags@.len(),
            tv == tags@.map_values(|t: [u8; 4]| t@),
            parses_as(*svd, raw@),
            ascending(v@),
            v@.to_set() == Set::new(|x: u16| plays_before(raw@, svd.areas@, tv, indexes@, t as int, 0, x)),
        decreases tags@.len() - t,
    {
        let tag = tags[t];
        assert(tag@ == tv[t as int]);
        let table = crate::repackage::table_of(raw, svd, &tag);
        let mut k: usize = 0;
        while k < indexes.len()
            invariant
                t < tags@.len(),
                k <= indexes@.len(),
                tag == tags@[t as int],
                tv == tags@.map_values(|t: [u8; 4]| t@),
                match table_in(raw@, svd.areas@, tag@) {
                    Ok(Some(b)) => table matches Ok(Some(x)) && x.wf() && x.body() == b,
                    _ => !(table matches Ok(Some(_))),
                },
                ascending(v@),
                v@.to_set() == Set::new(|x: u16| plays_before(raw@, svd.areas@, tv, indexes@, t as int, k as int, x)),
            decreases indexes@.len() - k,
        {
            let index = indexes[k];
            let ghost before = v@.to_set();
            let mut found: Vec<u16> = Vec::new();
            if let Ok(Some(tb)) = &table {
                if let Some(record) = tb.record(index) {
                    found = sample_slots_of(&tag, record);
                }
            }
            let ghost played = found@;
            proof {
                assert forall|x: u16| plays(raw@, svd.areas@, tv[t as int], index as int, x) <==> played.contains(x) by {}
            }
            let mut j: usize = 0;
            while j < found.len()
                invariant
                    j <= found@.len(),
                    played == found@,
                    ascending(v@),
                    v@.to_set() == before.union(played.take(j as int).to_set()),
                decreases found@.len() - j,
            {
                let ghost prev = v@.to_set();
                insert_sorted(&mut v, found[j]);
                assert(played.take(j + 1).to_set() =~= played.take(j as int).to_set().insert(played[j as int])) by {
                    assert(played.take(j + 1) =~= played.take(j as int).push(played[j as int]));
                    vstd::seq_lib::lemma_seq_contains_after_push(played.take(j as int), played[j as int], played[j as int]);
                    assert forall|y: u16| played.take(j + 1).to_set().contains(y) <==> played.take(j as int).to_set().insert(played[j as int]).contains(y) by {
                        if played.take(j + 1).contains(y) {
                            let i = choose|i: int| 0 <= i < j + 1 && #[trigger] played.take(j + 1)[i] == y;
                            if i < j {
                                assert(played.take(j as int)[i] == y);
                            }
                        }
                        if played.take(j as int).contains(y) {
                            let i = choose|i: int| 0 <= i < j && #[trigger] played.take(j as int)[i] == y;
                            assert(played.take(j + 1)[i] == y);
                        }
                        if y == played[j as int] {
                            assert(played.take(j + 1)[j as int] == y);
                        }
                    }
                }
                assert(v@.to_set() =~= before.union(played.take(j + 1).to_set()));
                j = j + 1;
            }
            proof {
                assert(played.take(played.len() as int) =~= played);
                assert forall|x: u16| v@.to_set().contains(x) <==> plays_before(raw@, svd.areas@, tv, indexes@, t as int, k + 1, x) by {
                    if plays_before(raw@, svd.areas@, tv, indexes@, t as int, k + 1, x) {
                        let (t2, k2) = choose|t2: int, k2: int|
                            0 <= t2 < tv.len() && 0 <= k2 < indexes@.len() && (t2 < t || (t2 == t && k2 < k + 1))
                                && #[trigger] plays(raw@, svd.areas@, tv[t2], indexes@[k2] as int, x);
                        if !(t2 == t && k2 == k) {
                            assert(plays_before(raw@, svd.areas@, tv, indexes@, t as int, k as int, x));
                        } else {
                            assert(played.contains(x));
                            assert(played.to_set().contains(x));
                        }
                    }
                    if before.contains(x) {
                        assert(plays_before(raw@, svd.areas@, tv, indexes@, t as int, k as int, x));
                        let (t2, k2) = choose|t2: int, k2: int|
                            0 <= t2 < tv.len() && 0 <= k2 < indexes@.len() && (t2 < t || (t2 == t && k2 < k))
                                && #[trigger] plays(raw@, svd.areas@, tv[t2], indexes@[k2] as int, x);
                        assert(plays_before(raw@, svd.areas@, tv, indexes@, t as int, k + 1, x));
                    }
                    if played.to_set().contains(x) {
                        assert(played.contains(x));
                        assert(plays(raw@, svd.areas@, tv[t as int], indexes@[k as int] as int, x));
                        assert(plays_before(raw@, svd.areas@, tv, indexes@, t as int, k + 1, x));
                    }
                }
                assert(v@.to_set() =~= Set::new(|x: u16| plays_before(raw@, svd.areas@, tv, indexes@, t as int, k + 1, x)));
            }
            k = k + 1;
        }
        proof {
            assert forall|x: u16| plays_before(raw@, svd.areas@, tv, indexes@, t as int, indexes@.len() as int, x)
                <==> plays_before(raw@, svd.areas@, tv, indexes@, t + 1, 0, x) by {
                if plays_before(raw@, svd.areas@, tv, indexes@, t + 1, 0, x) {
                    let (t2, k2) = choose|t2: int, k2: int|
                        0 <= t2 < tv.len() && 0 <= k2 < indexes@.len() && (t2 < t + 1 || (t2 == t + 1 && k2 < 0))
                            && #[trigger] plays(raw@, svd.areas@, tv[t2], indexes@[k2] as int, x);
                    assert(plays_before(raw@, svd.areas@, tv, indexes@, t as int, indexes@.len() as int, x));
                }
                if plays_before(raw@, svd.areas@, tv, indexes@, t as int, indexes@.len() as int, x) {
                    let (t2, k2) = choose|t2: int, k2: int|
                        0 <= t2 < tv.len() && 0 <= k2 < indexes@.len() && (t2 < t || (t2 == t && k2 < indexes@.len()))
                            && #[trigger] plays(raw@, svd.areas@, tv[t2], indexes@[k2] as int, x);
                    assert(plays_before(raw@, svd.areas@, tv, indexes@, t + 1, 0, x));
                }
            }
            assert(v@.to_set() =~= Set::new(|x: u16| plays_before(raw@, svd.areas@, tv, indexes@, t + 1, 0, x)));
        }
        t = t + 1;
    }
    proof {
        assert forall|x: u16| #[trigger] closure_of(raw@, svd.areas@, tv, indexes@).contains(x)
            <==> plays_before(raw@, svd.areas@, tv, indexes@, tv.len() as int, 0, x) by {
            if plays_before(raw@, svd.areas@, tv, indexes@, tv.len() as int, 0, x) {
                let (t2, k2) = choose|t2: int, k2: int|
                    0 <= t2 < tv.len() && 0 <= k2 < indexes@.len() && (t2 < tv.len() || (t2 == tv.len() && k2 < 0))
                        && #[trigger] plays(raw@, svd.areas@, tv[t2], indexes@[k2] as int, x);
                assert(closure_of(raw@, svd.areas@, tv, indexes@).contains(x));
            }
        }
        assert(v@.to_set() =~= closure_of(raw@, svd.areas@, tv, indexes@));
    }
    v
}

} // verus!

verus! {

/// Number what travels from 1, in the order given: the mapping an instrument-written export uses.
pub fn dense(slots: &[u16]) -> (m: BTreeMap<u16, u16>)
    ensures
        m@ == run_map(slots@, 1, slots@.len() as int),
{
    let mut m: BTreeMap<u16, u16> = BTreeMap::new();
    let mut i: usize = 0;
    while i < slots.len()
        invariant
            i <= slots@.len(),
            m@ == run_map(slots@, 1, i as int),
        decreases slots@.len() - i,
    {
        m.insert(slots[i], (i + 1) as u16);
        i = i + 1;
    }
    m
}

proof fn lemma_tone_area_error_stays(s: Seq<u8>, areas: Seq<Area>, tag: [u8; 4], indexes: Seq<usize>, n: int)
    requires
        0 <= n <= indexes.len(),
        tone_area_error(s, areas, tag, indexes.take(n)) is Some,
        table_in(s, areas, tag@) is Ok,
    ensures
        tone_area_error(s, areas, tag, indexes) == tone_area_error(s, areas, tag, indexes.take(n)),
    decreases indexes.len() - n,
{
    if n < indexes.len() {
        assert(indexes.take(n + 1).drop_last() =~= indexes.take(n));
        lemma_tone_area_error_stays(s, areas, tag, indexes, n + 1);
    } else {
        assert(indexes.take(n) =~= indexes);
    }
}

/// Area `tag` of `raw` cut down to its records `indexes`, in that order, each with its sample
/// references renumbered through `map`.
fn tone_area(raw: &Raw, svd: &Svd, tag: &[u8; 4], indexes: &[usize], map: &BTreeMap<u16, u16>) -> (r: Result<Vec<u8>>)
    requires
        parses_as(*svd, raw@),
    ensures
        match tone_area_error(raw@, svd.areas@, *tag, indexes@) {
            Some(e) => r == Err::<Vec<u8>, Error>(e),
            None => r matches Ok(b) && tone_body(raw@, svd.areas@, tag@, indexes@, map@, b@),
        },
{
    let table = match crate::repackage::table_of(raw, svd, tag) {
        Err(e) => {
            return Err(e);
        },
        Ok(None) => {
            return Err(Error::NoSuchArea { tag: *tag });
        },
        Ok(Some(t)) => t,
    };
    let ghost b = table.body();
    let mut news: Vec<Vec<u8>> = Vec::new();
    let mut k: usize = 0;
    assert(indexes@.take(0) =~= Seq::<usize>::empty());
    while k < indexes.len()
        invariant
            k <= indexes@.len(),
            table.wf(),
            table.body() == b,
            table_in(raw@, svd.areas@, tag@) == Ok::<Option<Seq<u8>>, Error>(Some(b)),
            tone_area_error(raw@, svd.areas@, *tag, indexes@.take(k as int)) is None,
            news@.len() == k,
            forall|j: int| 0 <= j < k ==> #[trigger] remapped(tag@, record_of(b, indexes@[j] as int), news@[j]@, map@),
        decreases indexes@.len() - k,
    {
        let index = indexes[k];
        assert(indexes@.take(k + 1).drop_last() =~= indexes@.take(k as int));
        assert(indexes@.take(k + 1).last() == index);
        let record = match table.record(index) {
            None => {
                proof {
                    assert(tone_area_error(raw@, svd.areas@, *tag, indexes@.take(k + 1)) is Some);
                    lemma_tone_area_error_stays(raw@, svd.areas@, *tag, indexes@, k + 1);
                }
                return Err(Error::ExportToneOutOfRange { tag: *tag, index, count: table.len() });
            },
            Some(rec) => rec,
        };
        let mut copy = crate::bytes::copy_range(record, 0, record.len());
        assert(copy@ =~= record_of(b, index as int));
        remap_sample_slots_of(tag, copy.as_mut_slice(), map);
        news.push(copy);
        k = k + 1;
    }
    assert(indexes@.take(indexes@.len() as int) =~= indexes@);
    let body = record_area(&news, table.record_size);
    proof {
        let nv = news@.map_values(|r: Vec<u8>| r@);
        assert(forall|j: int| 0 <= j < indexes@.len() ==> #[trigger] remapped(tag@, record_of(b, indexes@[j] as int), nv[j], map@));
        assert(body@ == record_body(nv, le32(b, 4) as nat));
    }
    Ok(body)
}

} // verus!

verus! {

/// The areas a tone of bank row `row` is stored across, as the tags an area table stores.
pub open spec fn tone_tag_words(row: int) -> Seq<[u8; 4]> {
    if row == 0 {
        seq![[0x50u8, 0x41, 0x54, 0x61]]
    } else {
        seq![[0x52u8, 0x48, 0x59, 0x61], [0x49u8, 0x4e, 0x53, 0x61]]
    }
}

proof fn lemma_tone_error_stays(s: Seq<u8>, areas: Seq<Area>, tags: Seq<[u8; 4]>, indexes: Seq<usize>, n: int)
    requires
        0 <= n <= tags.len(),
        tone_error(s, areas, tags.take(n), indexes) is Some,
    ensures
        tone_error(s, areas, tags, indexes) == tone_error(s, areas, tags.take(n), indexes),
    decreases tags.len() - n,
{
    if n < tags.len() {
        assert(tags.take(n + 1).drop_last() =~= tags.take(n));
        lemma_tone_error_stays(s, areas, tags, indexes, n + 1);
    } else {
        assert(tags.take(n) =~= tags);
    }
}

proof fn lemma_ins_fold_nonzero(r: Seq<u8>, i: nat, f: nat)
    ensures
        !crate::container::ins::ins_fold(r, i, f).contains(0),
    decreases i, f,
{
    if f == 0 {
        if i > 0 {
            lemma_ins_fold_nonzero(r, (i - 1) as nat, 8);
        }
    } else {
        lemma_ins_fold_nonzero(r, i, (f - 1) as nat);
        let prev = crate::container::ins::ins_fold(r, i, (f - 1) as nat);
        if f <= 8 && crate::container::ins::ins_plays(r, i as int, f - 1) {
            let x = crate::bytes::le16(r, crate::container::ins::ins_number_at(i as int, f - 1));
            if !prev.contains(x) {
                let p = prev.push(x);
                if p.contains(0) {
                    let k = choose|k: int| 0 <= k < p.len() && p[k] == 0;
                    if k < prev.len() {
                        assert(prev[k] == 0);
                    }
                }
            }
        }
    }
}

/// No tone record of a decoded engine plays slot 0: a wave number of zero means no wave.
proof fn lemma_tone_slots_nonzero(row: int, t: int, r: Seq<u8>)
    requires
        0 <= row <= 1,
        0 <= t < tone_tags(row).len(),
    ensures
        !record_slots(tone_tags(row)[t], r).contains(0),
{
    let tag = tone_tags(row)[t];
    if tag == tag4('P', 'A', 'T', 'a') {
        crate::container::lemma_record_slots_nonzero(r);
    } else if tag == tag4('I', 'N', 'S', 'a') {
        lemma_ins_fold_nonzero(r, crate::container::ins::instruments(r) as nat, 0);
    } else {
        assert(tag == tag4('R', 'H', 'Y', 'a'));
        assert(record_slots(tag, r) =~= Seq::<u16>::empty());
    }
}

/// The `DIFa` and the tone areas `tags` of `source` cut down to records `indexes`, renumbered
/// through `map`, or the first area or record that cannot be taken.
fn tone_areas(
    source: &Raw,
    svd: &Svd,
    tags: &Vec<[u8; 4]>,
    indexes: &[usize],
    map: &BTreeMap<u16, u16>,
) -> (r: Result<Vec<AreaOut>>)
    requires
        parses_as(*svd, source@),
    ensures
        match tone_error(source@, svd.areas@, tags@, indexes@) {
            Some(e) => r == Err::<Vec<AreaOut>, Error>(e),
            None => r matches Ok(areas) && pieces_view(areas@).len() == tags@.len() + 1 && pieces_view(
                areas@,
            )[0] == dif_piece() && forall|j: int|
                0 <= j < tags@.len() ==> (#[trigger] pieces_view(areas@)[j + 1]).0 == tags@[j]@
                    && pieces_view(areas@)[j + 1].1 == zcor() && tone_body(
                    source@,
                    svd.areas@,
                    tags@[j]@,
                    indexes@,
                    map@,
                    pieces_view(areas@)[j + 1].2,
                ),
        },
{
    let ghost words = tags@;
    let mut areas: Vec<AreaOut> = Vec::new();
    areas.push(crate::samplebank::dif_area());
    let stamp: [u8; 4] = [0x5a, 0x43, 0x4f, 0x52];
    assert(stamp@ =~= zcor());
    let mut t: usize = 0;
    assert(words.take(0) =~= Seq::<[u8; 4]>::empty());
    while t < tags.len()
        invariant
            t <= tags@.len(),
            tags@ == words,
            stamp@ == zcor(),
            parses_as(*svd, source@),
            tone_error(source@, svd.areas@, words.take(t as int), indexes@) is None,
            pieces_view(areas@).len() == t + 1,
            pieces_view(areas@)[0] == dif_piece(),
            forall|j: int|
                0 <= j < t ==> (#[trigger] pieces_view(areas@)[j + 1]).0 == words[j]@ && pieces_view(areas@)[j + 1].1
                    == zcor() && tone_body(source@, svd.areas@, words[j]@, indexes@, map@, pieces_view(areas@)[j + 1].2),
        decreases tags@.len() - t,
    {
        assert(words.take(t + 1).drop_last() =~= words.take(t as int));
        let body = match tone_area(source, svd, &tags[t], indexes, map) {
            Err(e) => {
                proof {
                    assert(tone_error(source@, svd.areas@, words.take(t + 1), indexes@) is Some);
                    lemma_tone_error_stays(source@, svd.areas@, words, indexes@, t + 1);
                }
                return Err(e);
            },
            Ok(b) => b,
        };
        let ghost before = pieces_view(areas@);
        areas.push((tags[t], stamp, body));
        assert(pieces_view(areas@) =~= before.push((words[t as int]@, zcor(), body@)));
        t = t + 1;
    }
    assert(words.take(words.len() as int) =~= words);
    Ok(areas)
}

/// Slot numbers (from 1) as the 0-based sample indexes a backup's slot table uses.
fn sample_indexes(slots: &Vec<u16>) -> (idx: Vec<usize>)
    requires
        forall|i: int| 0 <= i < slots@.len() ==> slots@[i] != 0,
    ensures
        idx@ == slots@.map_values(|x: u16| (x - 1) as usize),
        forall|i: int| 0 <= i < idx@.len() ==> idx@[i] < usize::MAX,
{
    let mut idx: Vec<usize> = Vec::new();
    let mut i: usize = 0;
    while i < slots.len()
        invariant
            i <= slots@.len(),
            forall|j: int| 0 <= j < slots@.len() ==> slots@[j] != 0,
            idx@ == slots@.take(i as int).map_values(|x: u16| (x - 1) as usize),
        decreases slots@.len() - i,
    {
        let ghost before = idx@;
        idx.push(slots[i] as usize - 1);
        assert(slots@.take(i + 1) =~= slots@.take(i as int).push(slots@[i as int]));
        assert(idx@ =~= slots@.take(i + 1).map_values(|x: u16| (x - 1) as usize));
        i = i + 1;
    }
    assert(slots@.take(slots@.len() as int) =~= slots@);
    idx
}

/// Build an `.svz` tone export from the backup `source`, carrying records `indexes` of its
/// `area` bank, in that order, and the user audio those tones play.
///
/// Only engines whose sample references are decoded can be exported this way: `PATa`
/// (ZEN-Core) and `RHYa` with its paired `INSa` (drum kits). For any other engine no one could
/// tell which samples a record plays, so an export could neither carry them nor honestly say it
/// had left them behind.
#[verifier::spinoff_prover]
#[verifier::rlimit(40)]
pub fn export_tones(source: &Raw, area: &[u8; 4], indexes: &[usize]) -> (r: Result<Raw>)
    ensures
        indexes@.len() == 0 ==> r == Err::<Raw, Error>(Error::NoToneIndexes),
        indexes@.len() > 0 && row_with_tag(area@, 0) is None ==> r == Err::<Raw, Error>(
            Error::NotAToneArea { tag: *area },
        ),
        indexes@.len() > 0 && (row_with_tag(area@, 0) matches Some(i) && i > 1) ==> r == Err::<Raw, Error>(
            Error::SampleRefsNotDecoded { tag: *area },
        ),
        indexes@.len() > 0 && (row_with_tag(area@, 0) matches Some(i) && i <= 1) ==> {
            let row = row_with_tag(area@, 0)->Some_0;
            &&& envelope_error(source@) is Some ==> r is Err
            &&& forall|svd: Svd| #[trigger]
                parses_as(svd, source@) ==> (svd.kind == Kind::Svz ==> r == Err::<Raw, Error>(Error::AlreadySvz))
                    && (svd.kind != Kind::Svz ==> (exists|slots: Seq<u16>|
                    ascending(slots) && #[trigger] slots.to_set() == closure_of(source@, svd.areas@, tone_tags(row), indexes@))
                    && forall|slots: Seq<u16>|
                    ascending(slots) && slots.to_set() == closure_of(source@, svd.areas@, tone_tags(row), indexes@)
                        ==> #[trigger] tone_export_outcome(r, source@, svd.areas@, tone_tag_words(row), indexes@, slots))
        },
{
    if indexes.len() == 0 {
        return Err(Error::NoToneIndexes);
    }
    let spec = match spec_for_tag(area) {
        None => {
            return Err(Error::NotAToneArea { tag: *area });
        },
        Some(s) => s,
    };
    let ghost row = row_with_tag(area@, 0)->Some_0;
    if !spec.sample_refs_decoded {
        return Err(Error::SampleRefsNotDecoded { tag: *area });
    }
    let svd = Svd::parse(source)?;
    proof {
        assert forall|other: Svd| #[trigger] parses_as(other, source@) implies other.areas@ == svd.areas@
            && other.kind == svd.kind by {
            crate::diff::lemma_areas_unique(other, svd, source@);
        }
    }
    if matches!(svd.kind, Kind::Svz) {
        return Err(Error::AlreadySvz);
    }
    let tags = spec.paired();
    proof {
        if row == 0 {
            assert(tags@[0] =~= [0x50u8, 0x41, 0x54, 0x61]);
            assert(tags@ =~= tone_tag_words(row));
        } else {
            assert(tags@[0] =~= [0x52u8, 0x48, 0x59, 0x61]);
            assert(tags@[1] =~= [0x49u8, 0x4e, 0x53, 0x61]);
            assert(tags@ =~= tone_tag_words(row));
        }
        assert(tags@.map_values(|t: [u8; 4]| t@) =~= tone_tags(row));
    }
    let slots = closure(source, &svd, &tags, indexes);
    proof {
        assert forall|i: int| 0 <= i < slots@.len() implies slots@[i] != 0 by {
            let x = slots@[i];
            assert(slots@.to_set().contains(x));
            let (t, k) = choose|t: int, k: int|
                0 <= t < tone_tags(row).len() && 0 <= k < indexes@.len() && #[trigger] plays(
                    source@,
                    svd.areas@,
                    tone_tags(row)[t],
                    indexes@[k] as int,
                    x,
                );
            let b = table_in(source@, svd.areas@, tone_tags(row)[t])->Ok_0->Some_0;
            lemma_tone_slots_nonzero(row, t, record_of(b, indexes@[k] as int));
        }
    }
    proof {
        assert forall|other: Seq<u16>| ascending(other) && other.to_set() == closure_of(source@, svd.areas@, tone_tags(row), indexes@)
            implies other == slots@ by {
            crate::container::slots::lemma_ascending_unique(other, slots@);
        }
    }
    assert(slots@.to_set() == closure_of(source@, svd.areas@, tone_tags(row), indexes@));
    export_slots(source, &svd, &tags, indexes, &slots)
}

/// The tone export of records `indexes` of the areas `tags` of the parsed backup `source`, when
/// the tones play exactly the ascending `slots`.
#[verifier::spinoff_prover]
#[verifier::rlimit(40)]
fn export_slots(source: &Raw, svd: &Svd, tags: &Vec<[u8; 4]>, indexes: &[usize], slots: &Vec<u16>) -> (r: Result<Raw>)
    requires
        parses_as(*svd, source@),
        forall|i: int| 0 <= i < slots@.len() ==> slots@[i] != 0,
    ensures
        tone_export_outcome(r, source@, svd.areas@, tags@, indexes@, slots@),
{
    let map = dense(slots.as_slice());
    let mut areas = match tone_areas(source, svd, tags, indexes, &map) {
        Err(e) => {
            return Err(e);
        },
        Ok(a) => a,
    };
    let ghost tone_part = pieces_view(areas@);
    let ghost sb: Option<(Seq<u8>, Seq<u8>)>;
    if slots.len() > 0 {
        let idx = sample_indexes(slots);
        let (usp_body, usd_body) = match sample_areas(source, svd, idx.as_slice()) {
            Err(e) => {
                return Err(e);
            },
            Ok(b) => b,
        };
        let stamp: [u8; 4] = [0x5a, 0x43, 0x4f, 0x52];
        let usp_tag: [u8; 4] = [0x55, 0x53, 0x50, 0x61];
        let usd_tag: [u8; 4] = [0x55, 0x53, 0x44, 0x61];
        assert(stamp@ =~= zcor());
        assert(usp_tag@ =~= tag4('U', 'S', 'P', 'a'));
        assert(usd_tag@ =~= tag4('U', 'S', 'D', 'a'));
        areas.push((usp_tag, stamp, usp_body));
        areas.push((usd_tag, stamp, usd_body));
        proof {
            sb = Some((usp_body@, usd_body@));
            assert(pieces_view(areas@) =~= tone_part + seq![(tag4('U', 'S', 'P', 'a'), zcor(), usp_body@), (tag4('U', 'S', 'D', 'a'), zcor(), usd_body@)]);
        }
    } else {
        proof {
            sb = None;
            assert(pieces_view(areas@) =~= tone_part + Seq::<(Seq<u8>, Seq<u8>, Seq<u8>)>::empty());
        }
    }
    let mut order: Vec<[u8; 4]> = Vec::new();
    order.push([0x44, 0x49, 0x46, 0x61]);
    order.push([0x50, 0x41, 0x54, 0x61]);
    order.push([0x52, 0x48, 0x59, 0x61]);
    order.push([0x49, 0x4e, 0x53, 0x61]);
    order.push([0x55, 0x53, 0x50, 0x61]);
    order.push([0x4d, 0x53, 0x50, 0x61]);
    order.push([0x55, 0x53, 0x44, 0x61]);
    assert(order@ =~= tone_order());
    let pre = preamble();
    let r = assemble(&pre, &order, &areas);
    proof {
        let words = tags@;
        let bv = Seq::new(words.len(), |j: int| tone_part[j + 1].2);
        assert(tone_bodies(source@, svd.areas@, words, indexes@, map@, bv));
        assert(tone_part =~= seq![dif_piece()] + Seq::new(words.len(), |t: int| (words[t]@, zcor(), bv[t])));
        assert(pieces_view(areas@) =~= tone_pieces(words, bv, sb));
        assert forall|bs: Seq<Seq<u8>>| #[trigger] tone_bodies(source@, svd.areas@, words, indexes@, map@, bs) implies bs == bv by {
            lemma_bodies_unique(source@, svd.areas@, words, indexes@, map@, bs, bv);
        }
    }
    r
}

proof fn lemma_bodies_unique(
    s: Seq<u8>,
    areas: Seq<Area>,
    tags: Seq<[u8; 4]>,
    indexes: Seq<usize>,
    m: Map<u16, u16>,
    b1: Seq<Seq<u8>>,
    b2: Seq<Seq<u8>>,
)
    requires
        tone_bodies(s, areas, tags, indexes, m, b1),
        tone_bodies(s, areas, tags, indexes, m, b2),
    ensures
        b1 == b2,
{
    assert forall|t: int| 0 <= t < tags.len() implies b1[t] == b2[t] by {
        assert(tone_body(s, areas, tags[t]@, indexes, m, b1[t]));
        assert(tone_body(s, areas, tags[t]@, indexes, m, b2[t]));
        let b = table_in(s, areas, tags[t]@)->Ok_0->Some_0;
        let n1 = choose|news: Seq<Seq<u8>>|
            #![trigger record_body(news, le32(b, 4) as nat)]
            news.len() == indexes.len() && (forall|k: int|
                0 <= k < indexes.len() ==> #[trigger] remapped(tags[t]@, record_of(b, indexes[k] as int), news[k], m))
                && b1[t] == record_body(news, le32(b, 4) as nat);
        let n2 = choose|news: Seq<Seq<u8>>|
            #![trigger record_body(news, le32(b, 4) as nat)]
            news.len() == indexes.len() && (forall|k: int|
                0 <= k < indexes.len() ==> #[trigger] remapped(tags[t]@, record_of(b, indexes[k] as int), news[k], m))
                && b2[t] == record_body(news, le32(b, 4) as nat);
        assert forall|k: int| 0 <= k < indexes.len() implies n1[k] == n2[k] by {
            crate::container::lemma_remapped_same(tags[t]@, record_of(b, indexes[k] as int), n1[k], n2[k], m);
        }
        assert(n1 =~= n2);
    }
    assert(b1 =~= b2);
}

} // verus!
