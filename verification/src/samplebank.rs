//! Building a sample-only SVZ: the one container that moves user audio between instruments.
//!
//! A scene export carries no audio, only slot references, so a sampled scene is incomplete
//! anywhere but the instrument it came from. The fix is to hand the destination a second file it
//! does read: an `.svz` holding `DIFa`, `USPa` and `USDa` and no tone area at all, which
//! **MENU → IMPORT SAMPLE** loads into a slot range the user picks.
//!
//! The audio lives in a full backup in a different shape: `SMPa` slot records and one `USDa`
//! holding `SMPd` sections. Converting is a header rewrite around an unchanged audio payload.

use vstd::prelude::*;

use crate::bytes::{le32, push_all, push_u32, read_u32, u32_bytes};
use crate::container::records::{data_start, whole_records, HEADER_LEN};
use crate::container::svd::{envelope_error, first_area, fits, lemma_first_area, parses_as};
use crate::container::{Area, Raw, RecordTable, Svd};
use crate::diff::{beyond, block, record_of};
use crate::repackage::table_in;
use crate::tonebank::layout::{assemble, build_waveform_area, svz_outcome, wave_area};
use crate::tonebank::load::{pieces_view, waves_view, AreaOut, Waveform};
use crate::{Error, Result};

verus! {

/// `USPa` record length; an `SMPa` record is 84 bytes.
pub const USP_LEN: usize = 64;

/// Where `SMPa`'s parameter block (in-use, level, loop mode, original key, start, loop point,
/// end) starts and ends.
pub const SMPA_PARAMS_START: usize = 0x40;
pub const SMPA_PARAMS_END: usize = 0x54;

/// `DIFa` is 32 bytes, all zero, in every SVZ the instrument writes.
pub const DIF_LEN: usize = 32;

/// The section header fields of a backup `SMPd`.
pub const BACKUP_FLAGS: usize = 0x04;
pub const BACKUP_SIZE: usize = 0x08;
pub const BACKUP_WORDS: usize = 0x0c;
pub const BACKUP_NAME: usize = 0x10;
pub const BACKUP_RATE: usize = 0x20;
pub const BACKUP_ID: usize = 0x24;
pub const BACKUP_AUDIO: usize = 0x80;
/// A backup's declared section size excludes the 64-byte gap before the next section, which is
/// audio too.
pub const TRAILING_GAP: usize = 64;
/// Where an SVZ `SMPd`'s audio starts.
pub const SVZ_AUDIO: usize = 0x60;

/// The fixed tail (`0x2c..0x3c`) of every `USPa` record the instrument writes.
pub open spec fn usp_tail() -> Seq<u8> {
    seq![0x02u8, 0x00, 0x32, 0x32, 0x00, 0x01, 0xe0, 0x2e, 0x00, 0x00, 0x10, 0x00, 0x01, 0x10, 0x00, 0x00]
}

/// `n` zero bytes.
pub open spec fn zeros(n: nat) -> Seq<u8> {
    Seq::new(n, |_i: int| 0u8)
}

/// The tags of the areas a sample file holds, in the order it holds them.
pub open spec fn sample_order() -> Seq<[u8; 4]> {
    seq![[0x44u8, 0x49, 0x46, 0x61], [0x55u8, 0x53, 0x50, 0x61], [0x55u8, 0x53, 0x44, 0x61]]
}

/// The preamble of an SVZ this library writes: the `SVZa` magic, the area count (filled in when
/// the file is laid out), shape revision 3, and the `KY019$` stamp every SVZ in the fixtures
/// carries, then four zero bytes.
pub open spec fn svz_preamble() -> Seq<u8> {
    seq![0x53u8, 0x56, 0x5a, 0x61, 0, 3, 0x4b, 0x59, 0x30, 0x31, 0x39, 0x24, 0, 0, 0, 0]
}

/// A record table body holding `records` of `size` bytes, with no info words.
pub open spec fn record_body(records: Seq<Seq<u8>>, size: nat) -> Seq<u8> {
    u32_bytes(records.len() as u32) + u32_bytes(size as u32) + u32_bytes(HEADER_LEN as u32) + u32_bytes(0)
        + concat(records)
}

/// `records` end to end.
pub open spec fn concat(records: Seq<Seq<u8>>) -> Seq<u8>
    decreases records.len(),
{
    if records.len() == 0 {
        Seq::empty()
    } else {
        concat(records.drop_last()) + records.last()
    }
}

/// The `USPa` record for an `SMPa` record: its name, then its parameter block shifted down by
/// `0x2c`, then the fixed tail.
pub open spec fn usp_of(smpa: Seq<u8>) -> Seq<u8> {
    smpa.subrange(0, 16) + zeros(4) + smpa.subrange(SMPA_PARAMS_START as int, SMPA_PARAMS_END as int)
        + zeros(4) + usp_tail() + zeros(4)
}

/// The flags word an SVZ section carries for a backup section with flags `f`: a fixed base, plus
/// one bit carried from the backup's.
pub open spec fn svz_flags(f: u32) -> u32 {
    if f & 0x4000_0000u32 != 0 {
        0x0001_1002u32
    } else {
        0x0000_1002u32
    }
}

/// A backup `SMPd` section rewritten into SVZ form: a new 96-byte header, then its audio
/// untouched.
pub open spec fn svz_section(sec: Seq<u8>) -> Seq<u8> {
    seq![0x53u8, 0x4d, 0x50, 0x64] + u32_bytes(le32(sec, BACKUP_WORDS as int)) + u32_bytes(
        svz_flags(le32(sec, BACKUP_FLAGS as int)),
    ) + u32_bytes(le32(sec, BACKUP_RATE as int)) + sec.subrange(BACKUP_NAME as int, BACKUP_NAME + 16)
        + zeros(0x40) + sec.subrange(BACKUP_AUDIO as int, sec.len() as int)
}

/// The sections a backup `USDa` body (after its header) lists from directory entry `e` on: each
/// 8-byte entry names a slot and an offset, until the terminator, the last whole entry, or an
/// offset whose size field lies outside the body. A section runs its declared size plus the gap
/// after it, cut at the end of the body; it is given as its slot and where it starts and ends.
pub open spec fn sections_from(body: Seq<u8>, e: nat) -> Seq<(u32, int, int)>
    decreases body.len() - 8 * e,
{
    if 8 * e + 8 > body.len() {
        Seq::empty()
    } else {
        let slot = le32(body, (8 * e) as int);
        let off = le32(body, (8 * e + 4) as int) as int;
        if slot == 0xFFFF_FFFFu32 || off + BACKUP_SIZE + 4 > body.len() {
            Seq::empty()
        } else {
            let size = le32(body, off + BACKUP_SIZE) as int;
            let end = if off + size + TRAILING_GAP < body.len() {
                off + size + TRAILING_GAP
            } else {
                body.len() as int
            };
            seq![(slot, off, end)] + sections_from(body, e + 1)
        }
    }
}

/// The audio sections of a backup `s` with areas `areas`, as slot and bytes: none without a
/// `USDa`, or when it is too short for its header.
pub open spec fn backup_sections(s: Seq<u8>, areas: Seq<Area>) -> Result<Seq<(u32, Seq<u8>)>> {
    match first_area(areas, seq![0x55u8, 0x53, 0x44, 0x61]) {
        None => Ok(Seq::empty()),
        Some(i) => {
            let a = areas[i];
            if !fits(a, s.len()) {
                Err(beyond(a, s.len() as int))
            } else if block(s, a).len() < HEADER_LEN {
                Ok(Seq::empty())
            } else {
                let body = block(s, a).subrange(HEADER_LEN as int, block(s, a).len() as int);
                Ok(sections_from(body, 0).map_values(|x: (u32, int, int)| (x.0, body.subrange(x.1, x.2))))
            }
        },
    }
}

/// The first section of `secs` for slot `slot` (from 0).
pub open spec fn section_for(secs: Seq<(u32, Seq<u8>)>, slot: int) -> Option<Seq<u8>>
    decreases secs.len(),
{
    if secs.len() == 0 {
        None
    } else {
        match section_for(secs.drop_last(), slot) {
            Some(b) => Some(b),
            None => if secs.last().0 as int == slot {
                Some(secs.last().1)
            } else {
                None
            },
        }
    }
}

/// For each of `slots` (from 0), in order, its `SMPa` record in table body `t` and its section:
/// the first slot past the table, or without a section, is an error.
pub open spec fn picked(t: Seq<u8>, secs: Seq<(u32, Seq<u8>)>, slots: Seq<usize>) -> Result<
    Seq<(Seq<u8>, Seq<u8>)>,
>
    decreases slots.len(),
{
    if slots.len() == 0 {
        Ok(Seq::empty())
    } else {
        match picked(t, secs, slots.drop_last()) {
            Err(e) => Err(e),
            Ok(ps) => {
                let slot = slots.last();
                if slot >= whole_records(t) {
                    Err(
                        Error::SampleSlotOutOfRange {
                            slot: (slot + 1) as usize,
                            count: whole_records(t) as usize,
                        },
                    )
                } else {
                    match section_for(secs, slot as int) {
                        None => Err(Error::NoWaveform { slot: (slot + 1) as usize }),
                        Some(sec) => Ok(ps.push((record_of(t, slot as int), sec))),
                    }
                }
            },
        }
    }
}

/// The first record among `ps` too short for its parameter block, if any.
pub open spec fn short_record(ps: Seq<(Seq<u8>, Seq<u8>)>) -> Option<int>
    decreases ps.len(),
{
    if ps.len() == 0 {
        None
    } else {
        match short_record(ps.drop_last()) {
            Some(k) => Some(k),
            None => if ps.last().0.len() < SMPA_PARAMS_END {
                Some(ps.len() - 1)
            } else {
                None
            },
        }
    }
}

/// Why a section cannot be rewritten, if it cannot.
pub open spec fn section_error(sec: Seq<u8>) -> Option<Error> {
    if sec.len() < BACKUP_ID + 4 {
        Some(Error::SmpdTruncated)
    } else if sec.len() < BACKUP_AUDIO {
        Some(Error::SmpdShort)
    } else {
        None
    }
}

/// The first section among `ps` that cannot be rewritten, with why.
pub open spec fn bad_section(ps: Seq<(Seq<u8>, Seq<u8>)>) -> Option<Error>
    decreases ps.len(),
{
    if ps.len() == 0 {
        None
    } else {
        match bad_section(ps.drop_last()) {
            Some(e) => Some(e),
            None => section_error(ps.last().1),
        }
    }
}

/// The `DIFa` every SVZ opens with: one all-zero 32-byte record.
pub open spec fn dif_piece() -> (Seq<u8>, Seq<u8>, Seq<u8>) {
    (seq![0x44u8, 0x49, 0x46, 0x61], zcor(), record_body(seq![zeros(DIF_LEN as nat)], DIF_LEN as nat))
}

/// The format stamp of the areas an SVZ export holds.
pub open spec fn zcor() -> Seq<u8> {
    seq![0x5au8, 0x43, 0x4f, 0x52]
}

/// The `USPa` and `USDa` bodies carrying the picked samples `ps`, numbered from 0 in order.
pub open spec fn sample_bodies_of(ps: Seq<(Seq<u8>, Seq<u8>)>) -> (Seq<u8>, Seq<u8>) {
    (
        record_body(ps.map_values(|p: (Seq<u8>, Seq<u8>)| usp_of(p.0)), USP_LEN as nat),
        wave_area(
            Seq::new(ps.len(), |i: int| (i as u32, le32(ps[i].1, BACKUP_ID as int), svz_section(ps[i].1))),
        ),
    )
}

/// The `USPa` and `USDa` bodies carrying the samples at `slots` (from 0) of backup `s`, with
/// areas `areas`, or the first error finding a slot's record and audio or rewriting them.
pub open spec fn sample_bodies(s: Seq<u8>, areas: Seq<Area>, slots: Seq<usize>) -> Result<(Seq<u8>, Seq<u8>)> {
    match table_in(s, areas, seq![0x53u8, 0x4d, 0x50, 0x61]) {
        Err(e) => Err(e),
        Ok(None) => Err(Error::NoSampleArea),
        Ok(Some(t)) => match backup_sections(s, areas) {
            Err(e) => Err(e),
            Ok(secs) => match picked(t, secs, slots) {
                Err(e) => Err(e),
                Ok(ps) => match short_record(ps) {
                    Some(k) => Err(Error::ShortRecord { needed: SMPA_PARAMS_END, got: ps[k].0.len() as usize }),
                    None => match bad_section(ps) {
                        Some(e) => Err(e),
                        None => Ok(sample_bodies_of(ps)),
                    },
                },
            },
        },
    }
}

/// Whether `r` is what exporting the samples at `slots` (from 0) of backup `s`, with areas
/// `areas`, gives: the first error finding a slot's record and audio or rewriting them, or the
/// sample file laid out and checked.
pub open spec fn sample_export_outcome(r: Result<Raw>, s: Seq<u8>, areas: Seq<Area>, slots: Seq<usize>) -> bool {
    match sample_bodies(s, areas, slots) {
        Err(e) => r == Err::<Raw, Error>(e),
        Ok((u, d)) => svz_outcome(
            r,
            svz_preamble(),
            sample_order(),
            seq![dif_piece(), (seq![0x55u8, 0x53, 0x50, 0x61], zcor(), u), (seq![0x55u8, 0x53, 0x44, 0x61], zcor(), d)],
        ),
    }
}

} // verus!

verus! {

/// A record table body of `records`, each `size` bytes, with no info words.
pub fn record_area(records: &Vec<Vec<u8>>, size: usize) -> (body: Vec<u8>)
    ensures
        body@ == record_body(records@.map_values(|r: Vec<u8>| r@), size as nat),
{
    let ghost rs = records@.map_values(|r: Vec<u8>| r@);
    let mut body: Vec<u8> = Vec::new();
    push_u32(&mut body, records.len() as u32);
    push_u32(&mut body, size as u32);
    push_u32(&mut body, HEADER_LEN as u32);
    push_u32(&mut body, 0);
    let ghost head = body@;
    let mut i: usize = 0;
    while i < records.len()
        invariant
            i <= records@.len(),
            rs == records@.map_values(|r: Vec<u8>| r@),
            body@ == head + concat(rs.take(i as int)),
        decreases records@.len() - i,
    {
        assert(rs.take(i + 1).drop_last() =~= rs.take(i as int));
        push_all(&mut body, records[i].as_slice());
        i = i + 1;
        assert(body@ =~= head + concat(rs.take(i as int)));
    }
    assert(rs.take(records@.len() as int) =~= rs);
    body
}

/// Turn an 84-byte `SMPa` record into a 64-byte `USPa` one.
fn usp_record(smpa: &[u8]) -> (r: Vec<u8>)
    requires
        smpa@.len() >= SMPA_PARAMS_END,
    ensures
        r@ == usp_of(smpa@),
{
    let mut r = crate::bytes::copy_range(smpa, 0, 16);
    crate::bytes::push_repeat(&mut r, 0, 4);
    let params = crate::bytes::copy_range(smpa, SMPA_PARAMS_START, SMPA_PARAMS_END);
    push_all(&mut r, params.as_slice());
    crate::bytes::push_repeat(&mut r, 0, 4);
    let tail: [u8; 16] = [0x02, 0x00, 0x32, 0x32, 0x00, 0x01, 0xe0, 0x2e, 0x00, 0x00, 0x10, 0x00, 0x01, 0x10, 0x00, 0x00];
    assert(tail@ =~= usp_tail());
    push_all(&mut r, &tail);
    crate::bytes::push_repeat(&mut r, 0, 4);
    assert(r@ =~= usp_of(smpa@));
    r
}

/// Rewrite a backup `SMPd` section into SVZ form.
fn section_to_svz(sec: &[u8]) -> (r: Vec<u8>)
    requires
        sec@.len() >= BACKUP_AUDIO,
    ensures
        r@ == svz_section(sec@),
{
    let words = read_u32(sec, BACKUP_WORDS).unwrap();
    let rate = read_u32(sec, BACKUP_RATE).unwrap();
    let flags = read_u32(sec, BACKUP_FLAGS).unwrap();
    let carried: u32 = if flags & 0x4000_0000u32 != 0 { 0x0001_1002 } else { 0x0000_1002 };
    let mut r: Vec<u8> = Vec::new();
    r.push(0x53);
    r.push(0x4d);
    r.push(0x50);
    r.push(0x64);
    push_u32(&mut r, words);
    push_u32(&mut r, carried);
    push_u32(&mut r, rate);
    let name = crate::bytes::copy_range(sec, BACKUP_NAME, BACKUP_NAME + 16);
    push_all(&mut r, name.as_slice());
    crate::bytes::push_repeat(&mut r, 0, 0x40);
    let audio = crate::bytes::copy_range(sec, BACKUP_AUDIO, sec.len());
    push_all(&mut r, audio.as_slice());
    assert(r@ =~= svz_section(sec@));
    r
}

/// Walk a backup `USDa` body's directory.
fn walk_sections(body: &[u8]) -> (v: Vec<(u32, usize, usize)>)
    ensures
        v@.map_values(|x: (u32, usize, usize)| (x.0, x.1 as int, x.2 as int)) == sections_from(body@, 0),
{
    let n = body.len();
    let mut out: Vec<(u32, usize, usize)> = Vec::new();
    let mut e: usize = 0;
    loop
        invariant
            n == body@.len(),
            8 * e <= n,
            out@.map_values(|x: (u32, usize, usize)| (x.0, x.1 as int, x.2 as int)) + sections_from(body@, e as nat)
                == sections_from(body@, 0),
        decreases n - 8 * e,
    {
        if n - 8 * e < 8 {
            assert(sections_from(body@, e as nat) =~= Seq::<(u32, int, int)>::empty());
            assert(out@.map_values(|x: (u32, usize, usize)| (x.0, x.1 as int, x.2 as int)) =~= out@.map_values(|x: (u32, usize, usize)| (x.0, x.1 as int, x.2 as int)) + Seq::<(u32, int, int)>::empty());
            return out;
        }
        let slot = read_u32(body, 8 * e).unwrap();
        let off = read_u32(body, 8 * e + 4).unwrap() as usize;
        if slot == 0xFFFF_FFFFu32 || off > n || n - off < BACKUP_SIZE + 4 {
            assert(sections_from(body@, e as nat) =~= Seq::<(u32, int, int)>::empty());
            assert(out@.map_values(|x: (u32, usize, usize)| (x.0, x.1 as int, x.2 as int)) =~= out@.map_values(|x: (u32, usize, usize)| (x.0, x.1 as int, x.2 as int)) + Seq::<(u32, int, int)>::empty());
            return out;
        }
        let size = read_u32(body, off + BACKUP_SIZE).unwrap() as usize;
        let end = if n - off > size && n - off - size > TRAILING_GAP { off + size + TRAILING_GAP } else { n };
        let ghost before = out@.map_values(|x: (u32, usize, usize)| (x.0, x.1 as int, x.2 as int));
        out.push((slot, off, end));
        proof {
            let after = out@.map_values(|x: (u32, usize, usize)| (x.0, x.1 as int, x.2 as int));
            assert(after =~= before.push((slot, off as int, end as int)));
            assert(sections_from(body@, e as nat) == seq![(slot, off as int, end as int)] + sections_from(body@, (e + 1) as nat));
            assert(after + sections_from(body@, (e + 1) as nat) =~= before + sections_from(body@, e as nat));
        }
        e = e + 1;
    }
}

proof fn lemma_spans_inside(body: Seq<u8>, e: nat)
    ensures
        forall|j: int|
            0 <= j < sections_from(body, e).len() ==> 0 <= #[trigger] sections_from(body, e)[j].1
                <= sections_from(body, e)[j].2 <= body.len(),
    decreases body.len() - 8 * e,
{
    if 8 * e + 8 <= body.len() {
        let slot = le32(body, (8 * e) as int);
        let off = le32(body, (8 * e + 4) as int) as int;
        if !(slot == 0xFFFF_FFFFu32 || off + BACKUP_SIZE + 4 > body.len()) {
            lemma_spans_inside(body, e + 1);
            let rest = sections_from(body, e + 1);
            let all = sections_from(body, e);
            assert forall|j: int| 0 <= j < all.len() implies 0 <= #[trigger] all[j].1 <= all[j].2 <= body.len() by {
                if j > 0 {
                    assert(all[j] == rest[j - 1]);
                }
            }
        }
    }
}

/// The audio sections of backup `raw`, each as its slot and a copy of its bytes.
fn read_sections(raw: &Raw, svd: &Svd) -> (r: Result<Vec<(u32, Vec<u8>)>>)
    requires
        parses_as(*svd, raw@),
    ensures
        match backup_sections(raw@, svd.areas@) {
            Err(e) => r == Err::<Vec<(u32, Vec<u8>)>, Error>(e),
            Ok(secs) => r matches Ok(v) && v@.map_values(|x: (u32, Vec<u8>)| (x.0, x.1@)) == secs,
        },
{
    let usda: [u8; 4] = [0x55, 0x53, 0x44, 0x61];
    assert(usda@ =~= seq![0x55u8, 0x53, 0x44, 0x61]);
    let area = match svd.area(&usda) {
        None => {
            let v: Vec<(u32, Vec<u8>)> = Vec::new();
            assert(v@.map_values(|x: (u32, Vec<u8>)| (x.0, x.1@)) =~= Seq::<(u32, Seq<u8>)>::empty());
            return Ok(v);
        },
        Some(a) => a,
    };
    proof {
        lemma_first_area(svd.areas@, usda@);
    }
    let bytes = match svd.area_bytes(raw, area) {
        Ok(b) => b,
        Err(e) => {
            return Err(e);
        },
    };
    if bytes.len() < HEADER_LEN {
        let v: Vec<(u32, Vec<u8>)> = Vec::new();
        assert(v@.map_values(|x: (u32, Vec<u8>)| (x.0, x.1@)) =~= Seq::<(u32, Seq<u8>)>::empty());
        return Ok(v);
    }
    let body = vstd::slice::slice_subrange(bytes, HEADER_LEN, bytes.len());
    let walk = walk_sections(body);
    let ghost spans = sections_from(body@, 0);
    proof {
        lemma_spans_inside(body@, 0);
    }
    let mut out: Vec<(u32, Vec<u8>)> = Vec::new();
    let mut k: usize = 0;
    while k < walk.len()
        invariant
            k <= walk@.len(),
            walk@.map_values(|x: (u32, usize, usize)| (x.0, x.1 as int, x.2 as int)) == spans,
            spans == sections_from(body@, 0),
            forall|j: int| 0 <= j < spans.len() ==> 0 <= #[trigger] spans[j].1 <= spans[j].2 <= body@.len(),
            out@.map_values(|x: (u32, Vec<u8>)| (x.0, x.1@)) == spans.take(k as int).map_values(
                |x: (u32, int, int)| (x.0, body@.subrange(x.1, x.2)),
            ),
        decreases walk@.len() - k,
    {
        let (slot, start, end) = walk[k];
        assert(spans[k as int] == (slot, start as int, end as int));
        let copy = crate::bytes::copy_range(body, start, end);
        let ghost before = out@.map_values(|x: (u32, Vec<u8>)| (x.0, x.1@));
        out.push((slot, copy));
        assert(spans.take(k + 1) =~= spans.take(k as int).push(spans[k as int]));
        assert(out@.map_values(|x: (u32, Vec<u8>)| (x.0, x.1@)) =~= before.push((slot, body@.subrange(start as int, end as int))));
        assert(out@.map_values(|x: (u32, Vec<u8>)| (x.0, x.1@)) =~= spans.take(k + 1).map_values(
            |x: (u32, int, int)| (x.0, body@.subrange(x.1, x.2)),
        ));
        k = k + 1;
    }
    assert(spans.take(walk@.len() as int) =~= spans);
    Ok(out)
}

} // verus!

verus! {

fn find_section(secs: &Vec<(u32, Vec<u8>)>, slot: usize) -> (r: Option<usize>)
    ensures
        match section_for(secs@.map_values(|x: (u32, Vec<u8>)| (x.0, x.1@)), slot as int) {
            None => r is None,
            Some(b) => r matches Some(k) && k < secs@.len() && secs@[k as int].1@ == b,
        },
{
    let ghost v = secs@.map_values(|x: (u32, Vec<u8>)| (x.0, x.1@));
    let mut k: usize = 0;
    while k < secs.len()
        invariant
            k <= secs@.len(),
            v == secs@.map_values(|x: (u32, Vec<u8>)| (x.0, x.1@)),
            section_for(v.take(k as int), slot as int) is None,
        decreases secs@.len() - k,
    {
        assert(v.take(k + 1).drop_last() =~= v.take(k as int));
        if secs[k].0 as usize == slot {
            proof {
                lemma_section_for_prefix(v, k + 1);
            }
            return Some(k);
        }
        k = k + 1;
    }
    assert(v.take(secs@.len() as int) =~= v);
    None
}

proof fn lemma_section_for_prefix(v: Seq<(u32, Seq<u8>)>, n: int)
    requires
        0 < n <= v.len(),
        section_for(v.take(n - 1), v[n - 1].0 as int) is None,
    ensures
        section_for(v, v[n - 1].0 as int) == Some(v[n - 1].1),
    decreases v.len() - n,
{
    let slot = v[n - 1].0 as int;
    assert(v.take(n).drop_last() =~= v.take(n - 1));
    assert(section_for(v.take(n), slot) == Some(v[n - 1].1));
    lemma_section_for_extend(v, n, slot);
}

proof fn lemma_section_for_extend(v: Seq<(u32, Seq<u8>)>, n: int, slot: int)
    requires
        0 <= n <= v.len(),
        section_for(v.take(n), slot) is Some,
    ensures
        section_for(v, slot) == section_for(v.take(n), slot),
    decreases v.len() - n,
{
    if n < v.len() {
        assert(v.take(n + 1).drop_last() =~= v.take(n));
        lemma_section_for_extend(v, n + 1, slot);
    } else {
        assert(v.take(n) =~= v);
    }
}

pub open spec fn pairs_view(ps: Seq<(Vec<u8>, Vec<u8>)>) -> Seq<(Seq<u8>, Seq<u8>)> {
    ps.map_values(|p: (Vec<u8>, Vec<u8>)| (p.0@, p.1@))
}

proof fn lemma_picked_stays(t: Seq<u8>, secs: Seq<(u32, Seq<u8>)>, slots: Seq<usize>, n: int)
    requires
        0 <= n <= slots.len(),
        picked(t, secs, slots.take(n)) is Err,
    ensures
        picked(t, secs, slots) == picked(t, secs, slots.take(n)),
    decreases slots.len() - n,
{
    if n < slots.len() {
        assert(slots.take(n + 1).drop_last() =~= slots.take(n));
        lemma_picked_stays(t, secs, slots, n + 1);
    } else {
        assert(slots.take(n) =~= slots);
    }
}

/// Each of `slots`' `SMPa` record in `table` and audio section among `secs`, in order.
fn pick_samples(table: &RecordTable, secs: &Vec<(u32, Vec<u8>)>, slots: &[usize]) -> (r: Result<
    Vec<(Vec<u8>, Vec<u8>)>,
>)
    requires
        table.wf(),
        forall|i: int| 0 <= i < slots@.len() ==> slots@[i] < usize::MAX,
    ensures
        match picked(table.body(), secs@.map_values(|x: (u32, Vec<u8>)| (x.0, x.1@)), slots@) {
            Err(e) => r == Err::<Vec<(Vec<u8>, Vec<u8>)>, Error>(e),
            Ok(ps) => r matches Ok(v) && pairs_view(v@) == ps,
        },
{
    let ghost t = table.body();
    let ghost sv = secs@.map_values(|x: (u32, Vec<u8>)| (x.0, x.1@));
    let mut out: Vec<(Vec<u8>, Vec<u8>)> = Vec::new();
    assert(slots@.take(0) =~= Seq::<usize>::empty());
    assert(pairs_view(out@) =~= Seq::<(Seq<u8>, Seq<u8>)>::empty());
    let mut i: usize = 0;
    while i < slots.len()
        invariant
            i <= slots@.len(),
            forall|j: int| 0 <= j < slots@.len() ==> slots@[j] < usize::MAX,
            table.wf(),
            table.body() == t,
            sv == secs@.map_values(|x: (u32, Vec<u8>)| (x.0, x.1@)),
            picked(t, sv, slots@.take(i as int)) == Ok::<Seq<(Seq<u8>, Seq<u8>)>, Error>(pairs_view(out@)),
        decreases slots@.len() - i,
    {
        let slot = slots[i];
        assert(slots@.take(i + 1).drop_last() =~= slots@.take(i as int));
        assert(slots@.take(i + 1).last() == slot);
        let record = match table.record(slot) {
            None => {
                proof {
                    lemma_picked_stays(t, sv, slots@, i + 1);
                }
                return Err(Error::SampleSlotOutOfRange { slot: slot + 1, count: table.len() });
            },
            Some(rec) => rec,
        };
        let k = match find_section(secs, slot) {
            None => {
                proof {
                    lemma_picked_stays(t, sv, slots@, i + 1);
                }
                return Err(Error::NoWaveform { slot: slot + 1 });
            },
            Some(k) => k,
        };
        let copy = crate::bytes::copy_range(record, 0, record.len());
        assert(copy@ =~= record@);
        assert(record_of(t, slot as int) == record@);
        let sec = crate::bytes::copy_range(secs[k].1.as_slice(), 0, secs[k].1.len());
        assert(sec@ =~= secs@[k as int].1@);
        let ghost before = pairs_view(out@);
        out.push((copy, sec));
        assert(pairs_view(out@) =~= before.push((record@, secs@[k as int].1@)));
        i = i + 1;
    }
    assert(slots@.take(slots@.len() as int) =~= slots@);
    Ok(out)
}

/// The `USPa` records of the picked samples, or the first record too short for one.
fn usp_records(ps: &Vec<(Vec<u8>, Vec<u8>)>) -> (r: Result<Vec<Vec<u8>>>)
    ensures
        match short_record(pairs_view(ps@)) {
            Some(k) => r == Err::<Vec<Vec<u8>>, Error>(
                Error::ShortRecord { needed: SMPA_PARAMS_END, got: pairs_view(ps@)[k].0.len() as usize },
            ),
            None => r matches Ok(v) && v@.map_values(|x: Vec<u8>| x@) == pairs_view(ps@).map_values(
                |p: (Seq<u8>, Seq<u8>)| usp_of(p.0),
            ),
        },
{
    let ghost pv = pairs_view(ps@);
    let mut usp: Vec<Vec<u8>> = Vec::new();
    let mut j: usize = 0;
    while j < ps.len()
        invariant
            j <= ps@.len(),
            pv == pairs_view(ps@),
            short_record(pv.take(j as int)) is None,
            usp@.map_values(|x: Vec<u8>| x@) == pv.take(j as int).map_values(|p: (Seq<u8>, Seq<u8>)| usp_of(p.0)),
        decreases ps@.len() - j,
    {
        assert(pv.take(j + 1).drop_last() =~= pv.take(j as int));
        assert(pv[j as int].0 == ps@[j as int].0@);
        if ps[j].0.len() < SMPA_PARAMS_END {
            proof {
                lemma_short_record_extend(pv, j + 1);
            }
            return Err(Error::ShortRecord { needed: SMPA_PARAMS_END, got: ps[j].0.len() });
        }
        let ghost before = usp@.map_values(|x: Vec<u8>| x@);
        let rec = usp_record(ps[j].0.as_slice());
        usp.push(rec);
        assert(pv.take(j + 1) =~= pv.take(j as int).push(pv[j as int]));
        assert(usp@.map_values(|x: Vec<u8>| x@) =~= before.push(usp_of(pv[j as int].0)));
        assert(usp@.map_values(|x: Vec<u8>| x@) =~= pv.take(j + 1).map_values(|p: (Seq<u8>, Seq<u8>)| usp_of(p.0)));
        j = j + 1;
    }
    assert(pv.take(ps@.len() as int) =~= pv);
    Ok(usp)
}

#[verifier::spinoff_prover]
#[verifier::rlimit(40)]
/// The picked samples' audio in SVZ form, numbered from 0, or why a section cannot be rewritten.
fn svz_waves(ps: &Vec<(Vec<u8>, Vec<u8>)>) -> (r: Result<Vec<Waveform>>)
    ensures
        match bad_section(pairs_view(ps@)) {
            Some(e) => r == Err::<Vec<Waveform>, Error>(e),
            None => r matches Ok(v) && waves_view(v@) == Seq::new(
                ps@.len(),
                |i: int| (i as u32, le32(pairs_view(ps@)[i].1, BACKUP_ID as int), svz_section(pairs_view(ps@)[i].1)),
            ),
        },
{
    let ghost pv = pairs_view(ps@);
    let mut waves: Vec<Waveform> = Vec::new();
    let mut j: usize = 0;
    while j < ps.len()
        invariant
            j <= ps@.len(),
            pv == pairs_view(ps@),
            bad_section(pv.take(j as int)) is None,
            waves_view(waves@) == Seq::new(
                j as nat,
                |i: int| (i as u32, le32(pv[i].1, BACKUP_ID as int), svz_section(pv[i].1)),
            ),
        decreases ps@.len() - j,
    {
        assert(pv.take(j + 1).drop_last() =~= pv.take(j as int));
        let sec = ps[j].1.as_slice();
        assert(sec@ == pv[j as int].1);
        if sec.len() < BACKUP_ID + 4 {
            proof {
                lemma_bad_section_extend(pv, j + 1);
            }
            return Err(Error::SmpdTruncated);
        }
        if sec.len() < BACKUP_AUDIO {
            proof {
                lemma_bad_section_extend(pv, j + 1);
            }
            return Err(Error::SmpdShort);
        }
        let word = read_u32(sec, BACKUP_ID).unwrap();
        let bytes = section_to_svz(sec);
        let ghost before = waves_view(waves@);
        waves.push(Waveform { slot: j as u32, word, bytes });
        assert(waves_view(waves@) =~= before.push((j as u32, word, svz_section(pv[j as int].1))));
        assert(waves_view(waves@) =~= Seq::new(
            (j + 1) as nat,
            |i: int| (i as u32, le32(pv[i].1, BACKUP_ID as int), svz_section(pv[i].1)),
        ));
        j = j + 1;
    }
    assert(pv.take(ps@.len() as int) =~= pv);
    Ok(waves)
}

pub(crate) fn dif_area() -> (r: AreaOut)
    ensures
        (r.0@, r.1@, r.2@) == dif_piece(),
{
    let mut dif_record: Vec<u8> = Vec::new();
    crate::bytes::push_repeat(&mut dif_record, 0, DIF_LEN);
    let mut difs: Vec<Vec<u8>> = Vec::new();
    difs.push(dif_record);
    let dif = record_area(&difs, DIF_LEN);
    assert(difs@.map_values(|r: Vec<u8>| r@) =~= seq![zeros(DIF_LEN as nat)]);
    let stamp: [u8; 4] = [0x5a, 0x43, 0x4f, 0x52];
    let dif_tag: [u8; 4] = [0x44, 0x49, 0x46, 0x61];
    assert(stamp@ =~= zcor());
    assert(dif_tag@ =~= seq![0x44u8, 0x49, 0x46, 0x61]);
    (dif_tag, stamp, dif)
}

/// The preamble every SVZ this library writes opens with.
pub(crate) fn preamble() -> (p: [u8; 16])
    ensures
        p@ == svz_preamble(),
{
    let p: [u8; 16] = [0x53, 0x56, 0x5a, 0x61, 0, 3, 0x4b, 0x59, 0x30, 0x31, 0x39, 0x24, 0, 0, 0, 0];
    assert(p@ =~= svz_preamble());
    p
}

/// The `USPa` and `USDa` bodies carrying `slots` (from 0) out of backup `source`.
pub(crate) fn sample_areas(source: &Raw, svd: &Svd, slots: &[usize]) -> (r: Result<(Vec<u8>, Vec<u8>)>)
    requires
        parses_as(*svd, source@),
        forall|i: int| 0 <= i < slots@.len() ==> slots@[i] < usize::MAX,
    ensures
        match sample_bodies(source@, svd.areas@, slots@) {
            Err(e) => r == Err::<(Vec<u8>, Vec<u8>), Error>(e),
            Ok((u, d)) => r matches Ok((x, y)) && x@ == u && y@ == d,
        },
{
    let smpa: [u8; 4] = [0x53, 0x4d, 0x50, 0x61];
    assert(smpa@ =~= seq![0x53u8, 0x4d, 0x50, 0x61]);
    let table = match crate::repackage::table_of(source, svd, &smpa) {
        Err(e) => {
            return Err(e);
        },
        Ok(None) => {
            return Err(Error::NoSampleArea);
        },
        Ok(Some(t)) => t,
    };
    let secs = match read_sections(source, svd) {
        Err(e) => {
            return Err(e);
        },
        Ok(v) => v,
    };
    let ps = match pick_samples(&table, &secs, slots) {
        Err(e) => {
            return Err(e);
        },
        Ok(v) => v,
    };
    let usp = match usp_records(&ps) {
        Err(e) => {
            return Err(e);
        },
        Ok(v) => v,
    };
    let waves = match svz_waves(&ps) {
        Err(e) => {
            return Err(e);
        },
        Ok(v) => v,
    };
    let usp_body = record_area(&usp, USP_LEN);
    let usd_body = build_waveform_area(&waves);
    proof {
        assert(pairs_view(ps@).len() == ps@.len());
    }
    Ok((usp_body, usd_body))
}

/// Build a sample-only `.svz` carrying `slots` from the full backup `source`, in the order
/// given.
///
/// `slots` are 0-based `SMPa` slot numbers: the panel's "0001" is 0 here. The output numbers
/// them densely from 0, as an instrument-written export does, so the destination imports them as
/// one contiguous run.
pub fn export_samples(source: &Raw, slots: &[usize]) -> (r: Result<Raw>)
    requires
        forall|i: int| 0 <= i < slots@.len() ==> slots@[i] < usize::MAX,
    ensures
        slots@.len() == 0 ==> r == Err::<Raw, Error>(Error::NoSampleSlots),
        slots@.len() > 0 && envelope_error(source@) is Some ==> r is Err,
        slots@.len() > 0 ==> forall|svd: Svd| #[trigger]
            parses_as(svd, source@) ==> sample_export_outcome(r, source@, svd.areas@, slots@),
{
    if slots.len() == 0 {
        return Err(Error::NoSampleSlots);
    }
    let svd = Svd::parse(source)?;
    proof {
        assert forall|other: Svd| #[trigger] parses_as(other, source@) implies other.areas@ == svd.areas@ by {
            crate::diff::lemma_areas_unique(other, svd, source@);
        }
    }
    let (usp_body, usd_body) = match sample_areas(source, &svd, slots) {
        Err(e) => {
            return Err(e);
        },
        Ok(b) => b,
    };
    let stamp: [u8; 4] = [0x5a, 0x43, 0x4f, 0x52];
    let usp_tag: [u8; 4] = [0x55, 0x53, 0x50, 0x61];
    let usd_tag: [u8; 4] = [0x55, 0x53, 0x44, 0x61];
    let mut areas: Vec<AreaOut> = Vec::new();
    let dif = dif_area();
    let dif_tag = dif.0;
    areas.push(dif);
    areas.push((usp_tag, stamp, usp_body));
    areas.push((usd_tag, stamp, usd_body));
    let mut order: Vec<[u8; 4]> = Vec::new();
    order.push(dif_tag);
    order.push(usp_tag);
    order.push(usd_tag);
    let pre = preamble();
    proof {
        assert(dif_tag@ == seq![0x44u8, 0x49, 0x46, 0x61]);
        assert(dif_tag == [0x44u8, 0x49, 0x46, 0x61]);
        assert(order@ =~= sample_order());
        assert(stamp@ =~= zcor());
        assert(pieces_view(areas@) =~= seq![
            dif_piece(),
            (seq![0x55u8, 0x53, 0x50, 0x61], zcor(), usp_body@),
            (seq![0x55u8, 0x53, 0x44, 0x61], zcor(), usd_body@),
        ]);
    }
    assemble(&pre, &order, &areas)
}

proof fn lemma_short_record_extend(ps: Seq<(Seq<u8>, Seq<u8>)>, n: int)
    requires
        0 < n <= ps.len(),
        short_record(ps.take(n - 1)) is None,
        ps[n - 1].0.len() < SMPA_PARAMS_END,
    ensures
        short_record(ps) == Some(n - 1),
    decreases ps.len() - n,
{
    assert(ps.take(n).drop_last() =~= ps.take(n - 1));
    assert(short_record(ps.take(n)) == Some(n - 1));
    lemma_short_record_stays(ps, n);
}

proof fn lemma_short_record_stays(ps: Seq<(Seq<u8>, Seq<u8>)>, n: int)
    requires
        0 <= n <= ps.len(),
        short_record(ps.take(n)) is Some,
    ensures
        short_record(ps) == short_record(ps.take(n)),
    decreases ps.len() - n,
{
    if n < ps.len() {
        assert(ps.take(n + 1).drop_last() =~= ps.take(n));
        lemma_short_record_stays(ps, n + 1);
    } else {
        assert(ps.take(n) =~= ps);
    }
}

proof fn lemma_bad_section_extend(ps: Seq<(Seq<u8>, Seq<u8>)>, n: int)
    requires
        0 < n <= ps.len(),
        bad_section(ps.take(n - 1)) is None,
        section_error(ps[n - 1].1) is Some,
    ensures
        bad_section(ps) == section_error(ps[n - 1].1),
    decreases ps.len() - n,
{
    assert(ps.take(n).drop_last() =~= ps.take(n - 1));
    assert(bad_section(ps.take(n)) == section_error(ps[n - 1].1));
    lemma_bad_section_stays(ps, n);
}

proof fn lemma_bad_section_stays(ps: Seq<(Seq<u8>, Seq<u8>)>, n: int)
    requires
        0 <= n <= ps.len(),
        bad_section(ps.take(n)) is Some,
    ensures
        bad_section(ps) == bad_section(ps.take(n)),
    decreases ps.len() - n,
{
    if n < ps.len() {
        assert(ps.take(n + 1).drop_last() =~= ps.take(n));
        lemma_bad_section_stays(ps, n + 1);
    } else {
        assert(ps.take(n) =~= ps);
    }
}

} // verus!
