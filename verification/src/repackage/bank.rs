//! Reading a scene bank for repackaging: its scenes, and every engine bank they play from.
//!
//! Records are copied as opaque bytes. The only fields read are the ones that decide what travels:
//! a scene's name (blank ones are unused slots), each zone's marker and tone address, and the
//! record counts and sizes of the areas.

use vstd::prelude::*;

use crate::address::{
    bank_row, lemma_first_row, lemma_row_bytes, record_index, resolve, row_paired, row_paired_bytes,
    row_tag, row_tag_bytes, area_at, ins_tag_bytes, is_row, AREA_COUNT, NAME_LEN,
};
use crate::codec::{prfa, prfa_tag, prfa_tag_value};
use crate::bytes::{copy_range, le32, read_u32};
use crate::container::svd::{first_area, fits, lemma_first_area, parses_as};
use crate::container::{Area, Raw, Svd};
use crate::diff::{beyond, block};
use crate::{Error, Result};

verus! {

/// Bytes before the first record of a table area.
pub const HEADER_LEN: usize = 0x10;

/// Zone entries in a scene record.
pub const ZONES: usize = 16;

/// A record table read whole: its header, format stamp, record size and records.
pub struct AreaView {
    pub header: Seq<u8>,
    pub format: Seq<u8>,
    pub size: nat,
    pub records: Seq<Seq<u8>>,
}

/// Whether a record's name field holds nothing but padding: an unused slot.
pub open spec fn blank_name(r: Seq<u8>) -> bool {
    forall|i: int| 0 <= i < NAME_LEN ==> (r[i] == 0 || r[i] == 0x20)
}

/// The records among `rs` whose names are not blank, in order.
pub open spec fn named(rs: Seq<Seq<u8>>) -> Seq<Seq<u8>>
    decreases rs.len(),
{
    if rs.len() == 0 {
        Seq::empty()
    } else if blank_name(rs.last()) {
        named(rs.drop_last())
    } else {
        named(rs.drop_last()).push(rs.last())
    }
}

/// Record `i` of a table body whose records are `size` bytes.
pub open spec fn nth_record(body: Seq<u8>, size: int, i: int) -> Seq<u8> {
    body.subrange(HEADER_LEN + i * size, HEADER_LEN + (i + 1) * size)
}

/// Every record a table body's header announces.
pub open spec fn all_records(body: Seq<u8>) -> Seq<Seq<u8>> {
    Seq::new(le32(body, 0) as nat, |i: int| nth_record(body, le32(body, 4) as int, i))
}

/// Why a table body cannot be read as records. Scene tables (`scenes`) need records that hold a
/// name; tone tables need records with something after the name.
pub open spec fn records_error(tag: [u8; 4], body: Seq<u8>, scenes: bool) -> Option<Error> {
    if body.len() < HEADER_LEN {
        Some(Error::HeaderMissing { tag })
    } else {
        let count = le32(body, 0) as int;
        let size = le32(body, 4) as int;
        if size == 0 {
            Some(Error::ZeroRecordSize { tag })
        } else if scenes && size < NAME_LEN {
            Some(Error::NameFieldCut { tag, size: size as usize })
        } else if !scenes && size <= NAME_LEN {
            Some(Error::NotAToneRecord { tag, size: size as usize })
        } else if HEADER_LEN + count * size > body.len() {
            Some(
                Error::RecordTruncated {
                    tag,
                    record: ((body.len() - HEADER_LEN) / size + 1) as usize,
                },
            )
        } else {
            None
        }
    }
}

/// What a readable table body holds. A scene table keeps only the records that carry a name.
pub open spec fn records_view(body: Seq<u8>, format: Seq<u8>, scenes: bool) -> AreaView {
    AreaView {
        header: body.subrange(0, HEADER_LEN as int),
        format,
        size: le32(body, 4) as nat,
        records: if scenes {
            named(all_records(body))
        } else {
            all_records(body)
        },
    }
}

/// A record table held in memory.
pub struct RecordArea {
    pub header: [u8; 16],
    pub format: [u8; 4],
    pub record_size: usize,
    pub records: Vec<Vec<u8>>,
}

impl View for RecordArea {
    type V = AreaView;

    open spec fn view(&self) -> AreaView {
        AreaView {
            header: self.header@,
            format: self.format@,
            size: self.record_size as nat,
            records: self.records@.map_values(|r: Vec<u8>| r@),
        }
    }
}

fn is_blank_name(r: &[u8]) -> (b: bool)
    requires
        r@.len() >= NAME_LEN,
    ensures
        b == blank_name(r@),
{
    let mut i: usize = 0;
    while i < NAME_LEN
        invariant
            i <= NAME_LEN,
            r@.len() >= NAME_LEN,
            forall|j: int| 0 <= j < i ==> (r@[j] == 0 || r@[j] == 0x20),
        decreases NAME_LEN - i,
    {
        if r[i] != 0 && r[i] != 0x20 {
            return false;
        }
        i = i + 1;
    }
    true
}

proof fn lemma_count_fits(count: int, size: int, avail: int)
    requires
        size > 0,
        count >= 0,
        avail >= 0,
    ensures
        count * size <= avail <==> count <= avail / size,
{
    vstd::arithmetic::div_mod::lemma_fundamental_div_mod(avail, size);
    assert(count * size <= avail <==> count <= avail / size) by (nonlinear_arith)
        requires
            size > 0,
            count >= 0,
            avail >= 0,
            avail == size * (avail / size) + avail % size,
            0 <= avail % size < size,
    ;
}

proof fn lemma_record_in(i: int, count: int, size: int)
    requires
        0 <= i < count,
        size > 0,
    ensures
        0 <= i * size,
        (i + 1) * size <= count * size,
        (i + 1) * size == i * size + size,
{
    assert((i + 1) * size <= count * size) by (nonlinear_arith)
        requires
            0 <= i < count,
            size > 0,
    ;
    assert(0 <= i * size) by (nonlinear_arith)
        requires
            0 <= i,
            size > 0,
    ;
    assert((i + 1) * size == i * size + size) by (nonlinear_arith);
}

/// Read every record of a table body (a scene table keeps only the named ones).
pub fn parse_records(body: &[u8], tag: &[u8; 4], format: [u8; 4], scenes: bool) -> (r: Result<
    RecordArea,
>)
    ensures
        match records_error(*tag, body@, scenes) {
            Some(e) => r == Err::<RecordArea, Error>(e),
            None => r matches Ok(a) && a@ == records_view(body@, format@, scenes),
        },
{
    if body.len() < HEADER_LEN {
        return Err(Error::HeaderMissing { tag: *tag });
    }
    let count = read_u32(body, 0).unwrap() as usize;
    let size = read_u32(body, 4).unwrap() as usize;
    if size == 0 {
        return Err(Error::ZeroRecordSize { tag: *tag });
    }
    if scenes && size < NAME_LEN {
        return Err(Error::NameFieldCut { tag: *tag, size });
    }
    if !scenes && size <= NAME_LEN {
        return Err(Error::NotAToneRecord { tag: *tag, size });
    }
    let avail = body.len() - HEADER_LEN;
    let whole = avail / size;
    proof {
        lemma_count_fits(count as int, size as int, avail as int);
    }
    if count > whole {
        return Err(Error::RecordTruncated { tag: *tag, record: whole + 1 });
    }
    let mut header = [0u8; 16];
    let mut h: usize = 0;
    while h < HEADER_LEN
        invariant
            h <= HEADER_LEN,
            body@.len() >= HEADER_LEN,
            forall|j: int| 0 <= j < h ==> header@[j] == body@[j],
        decreases HEADER_LEN - h,
    {
        header[h] = body[h];
        h = h + 1;
    }
    assert(header@ =~= body@.subrange(0, HEADER_LEN as int));
    let ghost all = all_records(body@);
    let mut records: Vec<Vec<u8>> = Vec::new();
    let mut i: usize = 0;
    while i < count
        invariant
            i <= count,
            count == le32(body@, 0),
            size == le32(body@, 4),
            size > NAME_LEN || (scenes && size >= NAME_LEN),
            HEADER_LEN + count * size <= body@.len(),
            all == all_records(body@),
            records@.map_values(|r: Vec<u8>| r@) == (if scenes {
                named(all.subrange(0, i as int))
            } else {
                all.subrange(0, i as int)
            }),
        decreases count - i,
    {
        proof {
            lemma_record_in(i as int, count as int, size as int);
        }
        assert(HEADER_LEN + i * size + size <= body@.len());
        assert(body@.len() == body.len());
        let start = HEADER_LEN + i * size;
        let record = copy_range(body, start, start + size);
        assert(record@ == all[i as int]);
        assert(all.subrange(0, i + 1).drop_last() =~= all.subrange(0, i as int));
        assert(all.subrange(0, i + 1).last() == all[i as int]);
        if !scenes || !is_blank_name(record.as_slice()) {
            records.push(record);
        }
        i = i + 1;
        assert(records@.map_values(|r: Vec<u8>| r@) =~= (if scenes {
            named(all.subrange(0, i as int))
        } else {
            all.subrange(0, i as int)
        }));
    }
    assert(all.subrange(0, count as int) =~= all);
    let area = RecordArea { header, format, record_size: size, records };
    assert(area@ =~= records_view(body@, format@, scenes));
    Ok(area)
}


/// Where zone `z`'s alignment marker sits in a scene record.
pub open spec fn marker_at(z: int) -> int {
    0x6d0 + z * 0x60 + 0x3e
}

/// Where zone `z`'s tone address (MSB, LSB, PC) sits in a scene record.
pub open spec fn tone_at(z: int) -> int {
    0x194 + z * 0x48
}

/// Whether zone `z` of scene record `r` is a real zone: its entry carries the `cf cd` marker and
/// its tone address lies within the record.
pub open spec fn zone_live(r: Seq<u8>, z: int) -> bool {
    &&& marker_at(z) + 2 <= r.len()
    &&& r[marker_at(z)] == 0xcf
    &&& r[marker_at(z) + 1] == 0xcd
    &&& tone_at(z) + 3 <= r.len()
}

/// The user-bank row and record index the tone address of zone `z` of `r` selects, if any.
pub open spec fn addressed(r: Seq<u8>, z: int) -> Option<(int, int)> {
    let t = tone_at(z);
    match bank_row(r[t], r[t + 1]) {
        Some(i) => Some((i, record_index(r[t], r[t + 1], r[t + 2]))),
        None => None,
    }
}

/// The user record a live zone of `r` plays.
pub open spec fn zone_ref(r: Seq<u8>, z: int) -> Option<(int, int)> {
    if zone_live(r, z) {
        addressed(r, z)
    } else {
        None
    }
}

/// The larger of two optional indexes.
pub open spec fn later(a: Option<int>, b: Option<int>) -> Option<int> {
    match (a, b) {
        (None, _) => b,
        (_, None) => a,
        (Some(x), Some(y)) => Some(if x >= y { x } else { y }),
    }
}

/// The record of bank row `row` that zone `z` of `r` plays.
pub open spec fn row_ref(r: Seq<u8>, z: int, row: int) -> Option<int> {
    match zone_ref(r, z) {
        Some((i, x)) => if i == row {
            Some(x)
        } else {
            None
        },
        None => None,
    }
}

/// The highest record of row `row` the first `z` zones of `r` play.
pub open spec fn highest_in(r: Seq<u8>, row: int, z: int) -> Option<int>
    decreases z,
{
    if z <= 0 {
        None
    } else {
        later(highest_in(r, row, z - 1), row_ref(r, z - 1, row))
    }
}

/// The highest record of row `row` any of `scenes` plays.
pub open spec fn highest(scenes: Seq<Seq<u8>>, row: int) -> Option<int>
    decreases scenes.len(),
{
    if scenes.len() == 0 {
        None
    } else {
        later(highest(scenes.drop_last(), row), highest_in(scenes.last(), row, ZONES as int))
    }
}

/// An optional index as an optional integer.
pub open spec fn opt_int(o: Option<usize>) -> Option<int> {
    match o {
        Some(x) => Some(x as int),
        None => None,
    }
}

/// Whether zone `z` of `r` is live.
pub fn is_live(r: &[u8], z: usize) -> (b: bool)
    requires
        z < ZONES,
    ensures
        b == zone_live(r@, z as int),
{
    let marker = 0x6d0 + z * 0x60 + 0x3e;
    let tone = 0x194 + z * 0x48;
    marker + 2 <= r.len() && r[marker] == 0xcf && r[marker + 1] == 0xcd && tone + 3 <= r.len()
}

/// The row of the user bank an `(MSB, LSB)` pair selects.
fn row_of(msb: u8, lsb: u8) -> (r: Option<usize>)
    ensures
        opt_int(r) == bank_row(msb, lsb),
{
    proof {
        lemma_first_row(msb, lsb, 0);
    }
    if lsb >= 64 {
        return None;
    }
    let mut i: usize = 0;
    while i < AREA_COUNT
        invariant
            i <= AREA_COUNT,
            lsb < 64,
            crate::address::first_row(msb, lsb, 0) == crate::address::first_row(msb, lsb, i as int),
        decreases AREA_COUNT - i,
    {
        let a = area_at(i);
        if a.msb == msb && a.lsb_first <= lsb && lsb <= a.lsb_last {
            return Some(i);
        }
        i = i + 1;
    }
    None
}

/// The row and record index the tone address of zone `z` selects.
pub fn zone_address(r: &[u8], z: usize) -> (o: Option<(usize, usize)>)
    requires
        z < ZONES,
        tone_at(z as int) + 3 <= r@.len(),
    ensures
        match addressed(r@, z as int) {
            Some((i, x)) => o matches Some((oi, ox)) && oi == i && ox == x && i < AREA_COUNT,
            None => o is None,
        },
{
    let t = 0x194 + z * 0x48;
    let msb = r[t];
    let lsb = r[t + 1];
    let pc = r[t + 2];
    proof {
        lemma_first_row(msb, lsb, 0);
    }
    match row_of(msb, lsb) {
        Some(i) => {
            let a = area_at(i);
            let index = (lsb - a.lsb_first) as usize * 128 + pc as usize;
            Some((i, index))
        },
        None => None,
    }
}

fn later_exec(a: Option<usize>, b: Option<usize>) -> (r: Option<usize>)
    ensures
        opt_int(r) == later(opt_int(a), opt_int(b)),
{
    match (a, b) {
        (None, _) => b,
        (_, None) => a,
        (Some(x), Some(y)) => Some(if x >= y { x } else { y }),
    }
}

/// For each bank row, the highest record any of `scenes` plays.
pub fn highest_refs(scenes: &Vec<Vec<u8>>) -> (v: Vec<Option<usize>>)
    ensures
        v@.len() == AREA_COUNT,
        forall|i: int|
            0 <= i < AREA_COUNT ==> opt_int(#[trigger] v@[i]) == highest(
                scenes@.map_values(|s: Vec<u8>| s@),
                i,
            ),
{
    let ghost sv = scenes@.map_values(|s: Vec<u8>| s@);
    let mut v: Vec<Option<usize>> = Vec::new();
    let mut i: usize = 0;
    while i < AREA_COUNT
        invariant
            i <= AREA_COUNT,
            v@.len() == i,
            forall|j: int| 0 <= j < i ==> v@[j] is None,
        decreases AREA_COUNT - i,
    {
        v.push(None);
        i = i + 1;
    }
    let mut k: usize = 0;
    while k < scenes.len()
        invariant
            k <= scenes@.len(),
            sv == scenes@.map_values(|s: Vec<u8>| s@),
            v@.len() == AREA_COUNT,
            forall|j: int|
                0 <= j < AREA_COUNT ==> opt_int(#[trigger] v@[j]) == highest(
                    sv.subrange(0, k as int),
                    j,
                ),
        decreases scenes@.len() - k,
    {
        let r = scenes[k].as_slice();
        let ghost before = v@;
        let mut z: usize = 0;
        while z < ZONES
            invariant
                z <= ZONES,
                r@ == sv[k as int],
                v@.len() == AREA_COUNT,
                before.len() == AREA_COUNT,
                forall|j: int|
                    0 <= j < AREA_COUNT ==> opt_int(#[trigger] v@[j]) == later(
                        opt_int(before[j]),
                        highest_in(r@, j, z as int),
                    ),
            decreases ZONES - z,
        {
            if is_live(r, z) {
                match zone_address(r, z) {
                    Some((row, index)) => {
                        let cur = v[row];
                        v.set(row, later_exec(cur, Some(index)));
                    },
                    None => {},
                }
            }
            z = z + 1;
        }
        k = k + 1;
        assert(sv.subrange(0, k as int).drop_last() =~= sv.subrange(0, k - 1));
    }
    assert(sv.subrange(0, scenes@.len() as int) =~= sv);
    v
}


/// Reading area `tag` of file `s` as a tone table, for the bank whose own area is `owner`.
pub open spec fn area_load(s: Seq<u8>, areas: Seq<Area>, owner: [u8; 4], tag: [u8; 4]) -> Result<
    AreaView,
> {
    match first_area(areas, tag@) {
        None => Err(Error::PairedMissing { tag: owner, paired: tag }),
        Some(k) => {
            let a = areas[k];
            if !fits(a, s.len()) {
                Err(beyond(a, s.len() as int))
            } else {
                match records_error(a.tag, block(s, a), false) {
                    Some(e) => Err(e),
                    None => Ok(records_view(block(s, a), a.format@, false)),
                }
            }
        },
    }
}

/// The areas of bank row `i` read together, its own first.
pub open spec fn row_areas(s: Seq<u8>, areas: Seq<Area>, i: int) -> Result<Seq<AreaView>> {
    let tag = row_tag_bytes(i);
    match area_load(s, areas, tag, tag) {
        Err(e) => Err(e),
        Ok(first) => if i == 1 {
            match area_load(s, areas, tag, ins_tag_bytes()) {
                Err(e) => Err(e),
                Ok(second) => Ok(seq![first, second]),
            }
        } else {
            Ok(seq![first])
        },
    }
}

/// The user bank of row `i` as `scenes` need it: absent when the file has no such area and
/// nothing plays from it; an error when a scene plays from a missing bank, when the areas indexed
/// in lockstep disagree on their record count, or when a scene plays a record past the end.
pub open spec fn bundle_load(s: Seq<u8>, areas: Seq<Area>, scenes: Seq<Seq<u8>>, i: int) -> Result<
    Option<Seq<AreaView>>,
> {
    let tag = row_tag_bytes(i);
    let hi = highest(scenes, i);
    match first_area(areas, tag@) {
        None => if hi is None {
            Ok(None)
        } else {
            Err(Error::DependencyMissing { tag })
        },
        Some(_) => match row_areas(s, areas, i) {
            Err(e) => Err(e),
            Ok(vs) => {
                let count = vs[0].records.len();
                if vs.len() > 1 && vs[1].records.len() != count {
                    Err(Error::PairedCountsDiffer { tag })
                } else {
                    match hi {
                        Some(h) => if h >= count {
                            Err(
                                Error::RecordOutOfRange {
                                    tag,
                                    index: h as usize,
                                    count: count as usize,
                                },
                            )
                        } else {
                            Ok(Some(vs))
                        },
                        None => Ok(Some(vs)),
                    }
                }
            },
        },
    }
}

/// The banks of rows `0..n`, or the first row's error.
pub open spec fn bundles_from(s: Seq<u8>, areas: Seq<Area>, scenes: Seq<Seq<u8>>, n: int) -> Result<
    Seq<Option<Seq<AreaView>>>,
>
    decreases n,
{
    if n <= 0 {
        Ok(Seq::empty())
    } else {
        match bundles_from(s, areas, scenes, n - 1) {
            Err(e) => Err(e),
            Ok(bs) => match bundle_load(s, areas, scenes, n - 1) {
                Err(e) => Err(e),
                Ok(b) => Ok(bs.push(b)),
            },
        }
    }
}

proof fn lemma_bundles_from(s: Seq<u8>, areas: Seq<Area>, scenes: Seq<Seq<u8>>, k: int, n: int)
    requires
        0 <= k <= n,
    ensures
        bundles_from(s, areas, scenes, k) is Err ==> bundles_from(s, areas, scenes, n)
            == bundles_from(s, areas, scenes, k),
        bundles_from(s, areas, scenes, n) matches Ok(bs) ==> bs.len() == n,
    decreases n,
{
    if k < n {
        lemma_bundles_from(s, areas, scenes, k, n - 1);
    } else if n > 0 {
        lemma_bundles_from(s, areas, scenes, n - 1, n - 1);
    }
}

/// Whether a loaded bank's areas agree: at least one, all holding the same number of records.
pub open spec fn bundle_wf(b: Seq<AreaView>) -> bool {
    &&& b.len() >= 1
    &&& forall|k: int| 0 <= k < b.len() ==> (#[trigger] b[k]).records.len() == b[0].records.len()
}

proof fn lemma_bundle_load_wf(s: Seq<u8>, areas: Seq<Area>, scenes: Seq<Seq<u8>>, i: int)
    ensures
        bundle_load(s, areas, scenes, i) matches Ok(Some(vs)) ==> bundle_wf(vs) && vs.len()
            == row_paired(i).len(),
{
}

proof fn lemma_bundles_wf(s: Seq<u8>, areas: Seq<Area>, scenes: Seq<Seq<u8>>, n: int)
    ensures
        bundles_from(s, areas, scenes, n) matches Ok(bs) ==> forall|i: int|
            0 <= i < bs.len() ==> (#[trigger] bs[i] matches Some(b) ==> bundle_wf(b) && b.len()
                == row_paired(i).len()),
    decreases n,
{
    if n > 0 {
        lemma_bundles_wf(s, areas, scenes, n - 1);
        lemma_bundle_load_wf(s, areas, scenes, n - 1);
        lemma_bundles_from(s, areas, scenes, n - 1, n - 1);
        if let Ok(bs) = bundles_from(s, areas, scenes, n) {
            let prev = bundles_from(s, areas, scenes, n - 1)->Ok_0;
            assert(bs == prev.push(bundle_load(s, areas, scenes, n - 1)->Ok_0));
            assert forall|i: int| 0 <= i < bs.len() implies (#[trigger] bs[i] matches Some(b) ==> bundle_wf(b)
                && b.len() == row_paired(i).len()) by {
                if i < n - 1 {
                    assert(bs[i] == prev[i]);
                }
            }
        }
    }
}

/// A scene bank as repackaging reads it.
pub struct BankView {
    /// The named scene records, in file order.
    pub scenes: Seq<Seq<u8>>,
    /// Per bank row, the bank's areas when the file carries it.
    pub bundles: Seq<Option<Seq<AreaView>>>,
    pub header: Seq<u8>,
    pub format: Seq<u8>,
    pub size: nat,
}

/// Whether a bank holds a bank entry per row, each one whose areas agree.
pub open spec fn bank_wf(v: BankView) -> bool {
    &&& v.bundles.len() == AREA_COUNT
    &&& forall|i: int|
        0 <= i < AREA_COUNT ==> (#[trigger] v.bundles[i] matches Some(b) ==> bundle_wf(b) && b.len()
            == row_paired(i).len())
}

/// What repackaging reads from file `s` with area table `areas`.
pub open spec fn bank_parse(s: Seq<u8>, areas: Seq<Area>) -> Result<BankView> {
    match first_area(areas, prfa()) {
        None => Err(Error::MissingArea { tag: prfa_tag() }),
        Some(k) => {
            let a = areas[k];
            if !fits(a, s.len()) {
                Err(beyond(a, s.len() as int))
            } else {
                match records_error(a.tag, block(s, a), true) {
                    Some(e) => Err(e),
                    None => {
                        let v = records_view(block(s, a), a.format@, true);
                        with_bundles(bundles_from(s, areas, v.records, AREA_COUNT as int), v)
                    },
                }
            }
        },
    }
}

/// A scene table and the banks its scenes play from, as one bank.
pub open spec fn with_bundles(bs: Result<Seq<Option<Seq<AreaView>>>>, v: AreaView) -> Result<
    BankView,
> {
    match bs {
        Err(e) => Err(e),
        Ok(bs) => Ok(
            BankView {
                scenes: v.records,
                bundles: bs,
                header: v.header,
                format: v.format,
                size: v.size,
            },
        ),
    }
}

/// The areas of one user bank, as loaded.
pub open spec fn areas_view(v: Vec<RecordArea>) -> Seq<AreaView> {
    v@.map_values(|a: RecordArea| a@)
}

/// A bank row's areas, when the file carries it.
pub open spec fn bundle_view(b: Option<Vec<RecordArea>>) -> Option<Seq<AreaView>> {
    match b {
        Some(v) => Some(areas_view(v)),
        None => None,
    }
}

/// The banks of every row, as loaded.
pub open spec fn bundles_view_of(v: Vec<Option<Vec<RecordArea>>>) -> Seq<Option<Seq<AreaView>>> {
    v@.map_values(|b: Option<Vec<RecordArea>>| bundle_view(b))
}

/// A scene bank loaded for repackaging.
pub struct ExportBank {
    pub scenes: Vec<Vec<u8>>,
    pub bundles: Vec<Option<Vec<RecordArea>>>,
    pub scene_header: [u8; 16],
    pub scene_format: [u8; 4],
    pub scene_record_size: usize,
}

impl View for ExportBank {
    type V = BankView;

    open spec fn view(&self) -> BankView {
        BankView {
            scenes: self.scenes@.map_values(|r: Vec<u8>| r@),
            bundles: self.bundles@.map_values(|b: Option<Vec<RecordArea>>| bundle_view(b)),
            header: self.scene_header@,
            format: self.scene_format@,
            size: self.scene_record_size as nat,
        }
    }
}

fn load_area(raw: &Raw, svd: &Svd, owner: [u8; 4], tag: [u8; 4]) -> (r: Result<RecordArea>)
    requires
        parses_as(*svd, raw@),
    ensures
        match area_load(raw@, svd.areas@, owner, tag) {
            Ok(v) => r matches Ok(a) && a@ == v,
            Err(e) => r == Err::<RecordArea, Error>(e),
        },
{
    let area = match svd.area(&tag) {
        Some(a) => a,
        None => {
            return Err(Error::PairedMissing { tag: owner, paired: tag });
        },
    };
    let bytes = svd.area_bytes(raw, area)?;
    parse_records(bytes, &area.tag, area.format, false)
}

fn load_bundle(raw: &Raw, svd: &Svd, hi: Option<usize>, i: usize) -> (r: Result<
    Option<Vec<RecordArea>>,
>)
    requires
        parses_as(*svd, raw@),
        i < AREA_COUNT,
    ensures
        forall|scenes: Seq<Seq<u8>>|
            opt_int(hi) == highest(scenes, i as int) ==> match #[trigger] bundle_load(
                raw@,
                svd.areas@,
                scenes,
                i as int,
            ) {
                Ok(b) => r matches Ok(rb) && bundle_view(rb) == b,
                Err(e) => r == Err::<Option<Vec<RecordArea>>, Error>(e),
            },
{
    let spec_row = area_at(i);
    proof {
        lemma_row_bytes(spec_row, i as int);
    }
    let tag = spec_row.tag;
    if svd.area(&tag).is_none() {
        if hi.is_none() {
            return Ok(None);
        }
        return Err(Error::DependencyMissing { tag });
    }
    let first = load_area(raw, svd, tag, tag)?;
    let mut areas: Vec<RecordArea> = Vec::new();
    let count = first.records.len();
    areas.push(first);
    match spec_row.companion {
        Some(t) => {
            let second = load_area(raw, svd, tag, t)?;
            if second.records.len() != count {
                return Err(Error::PairedCountsDiffer { tag });
            }
            areas.push(second);
        },
        None => {},
    }
    match hi {
        Some(h) => {
            if h >= count {
                return Err(Error::RecordOutOfRange { tag, index: h, count });
            }
        },
        None => {},
    }
    assert(areas_view(areas) =~= match row_areas(raw@, svd.areas@, i as int) {
        Ok(vs) => vs,
        Err(_) => Seq::empty(),
    });
    Ok(Some(areas))
}

impl ExportBank {
    /// Read a scene bank: its named scenes, and each engine bank its scenes play from.
    pub fn parse(raw: &Raw) -> (r: Result<Self>)
        ensures
            crate::container::svd::envelope_error(raw@) is Some ==> r is Err,
            r matches Ok(b) ==> bank_wf(b@),
            forall|svd: Svd| #[trigger]
                parses_as(svd, raw@) ==> match bank_parse(raw@, svd.areas@) {
                    Ok(v) => r matches Ok(b) && b@ == v && bank_wf(v),
                    Err(e) => r == Err::<ExportBank, Error>(e),
                },
    {
        let svd = Svd::parse(raw)?;
        proof {
            assert forall|other: Svd| #[trigger] parses_as(other, raw@) implies other.areas@
                == svd.areas@ by {
                crate::diff::lemma_areas_unique(other, svd, raw@);
            }
        }
        let prfa_t = prfa_tag_value();
        let area = match svd.area(&prfa_t) {
            Some(a) => a,
            None => {
                return Err(Error::MissingArea { tag: prfa_t });
            },
        };
        let bytes = svd.area_bytes(raw, area)?;
        let scenes = parse_records(bytes, &area.tag, area.format, true)?;
        let hi = highest_refs(&scenes.records);
        let ghost sv = scenes.records@.map_values(|r: Vec<u8>| r@);
        let mut bundles: Vec<Option<Vec<RecordArea>>> = Vec::new();
        let mut i: usize = 0;
        assert(sv =~= scenes@.records);
        while i < AREA_COUNT
            invariant
                i <= AREA_COUNT,
                parses_as(svd, raw@),
                hi@.len() == AREA_COUNT,
                forall|j: int| 0 <= j < AREA_COUNT ==> opt_int(#[trigger] hi@[j]) == highest(sv, j),
                sv == scenes@.records,
                forall|other: Svd| #[trigger] parses_as(other, raw@) ==> other.areas@ == svd.areas@,
                bank_parse(raw@, svd.areas@) == with_bundles(
                    bundles_from(raw@, svd.areas@, sv, AREA_COUNT as int),
                    scenes@,
                ),
                bundles_from(raw@, svd.areas@, sv, i as int) matches Ok(bs) && bs == bundles@.map_values(
                    |b: Option<Vec<RecordArea>>| bundle_view(b),
                ),
            decreases AREA_COUNT - i,
        {
            let b = load_bundle(raw, &svd, hi[i], i);
            assert(opt_int(hi@[i as int]) == highest(sv, i as int));
            match b {
                Ok(b) => {
                    bundles.push(b);
                },
                Err(e) => {
                    proof {
                        assert(bundle_load(raw@, svd.areas@, sv, i as int) == Err::<Option<Seq<AreaView>>, Error>(e));
                        assert(bundles_from(raw@, svd.areas@, sv, i + 1) == Err::<Seq<Option<Seq<AreaView>>>, Error>(e));
                        lemma_bundles_from(raw@, svd.areas@, sv, i + 1, AREA_COUNT as int);
                        assert(bundles_from(raw@, svd.areas@, sv, AREA_COUNT as int) == Err::<Seq<Option<Seq<AreaView>>>, Error>(e));
                    }
                    return Err(e);
                },
            }
            i = i + 1;
            assert(bundles_from(raw@, svd.areas@, sv, i as int) matches Ok(bs) && bs =~= bundles@.map_values(
                |b: Option<Vec<RecordArea>>| bundle_view(b),
            ));
        }
        proof {
            lemma_bundles_from(raw@, svd.areas@, sv, AREA_COUNT as int, AREA_COUNT as int);
            lemma_bundles_wf(raw@, svd.areas@, sv, AREA_COUNT as int);
        }
        let bank = ExportBank {
            scenes: scenes.records,
            bundles,
            scene_header: scenes.header,
            scene_format: area.format,
            scene_record_size: scenes.record_size,
        };
        assert(bank@.bundles =~= bundles_view_of(bank.bundles));
        Ok(bank)
    }
}

} // verus!
