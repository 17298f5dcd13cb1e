//! Rebuilding a scene bank from chosen scenes: the records they play are copied once each,
//! renumbered densely in the order first played, and the areas are laid out again.

use vstd::prelude::*;

use super::bank::{
    addressed, areas_view, bank_wf, bundle_view, bundle_wf, is_live, opt_int, tone_at, zone_address,
    zone_live, AreaView, BankView, ExportBank, RecordArea, ZONES,
};
use crate::bytes::{bytes_equal, copy_range, same_tag};
use crate::address::{
    area_at, lemma_row_bytes, paired_tags, row_paired, row_lsb_first, row_lsb_last, row_paired_bytes, row_tag_bytes, tag4, AREA_COUNT,
    PC_PER_PAGE,
};
use crate::bytes::{push_all, push_u16, push_u32, tag_of, u16_bytes, u32_bytes};
use crate::address::dependency_tags;
use crate::container::{Raw, Svd};
use crate::container::svd::{envelope_error, parses_as};
use crate::codec::prfa_tag_value;
use crate::verify::{checks_clean, vouch, vouched};
use crate::codec::prfa;
use crate::container::svd::{first_area, fits};
use crate::container::Area;
use crate::diff::{beyond, block};
use crate::{Error, Result};

verus! {

/// One record of every area of a bank, taken at the same index.
pub type Entry = Seq<Seq<u8>>;

/// An engine bank as rebuilt for the output: the shape of the first bank it was taken from, and
/// the entries added so far, each once.
pub struct OutView {
    pub formats: Seq<Seq<u8>>,
    pub sizes: Seq<nat>,
    pub headers: Seq<Seq<u8>>,
    pub entries: Seq<Entry>,
}

/// An output bank that has the shape of `b` and holds nothing yet.
pub open spec fn fresh(b: Seq<AreaView>) -> OutView {
    OutView {
        formats: b.map_values(|a: AreaView| a.format),
        sizes: b.map_values(|a: AreaView| a.size),
        headers: b.map_values(|a: AreaView| a.header),
        entries: Seq::empty(),
    }
}

/// Whether records of `b` can join output bank `o`: same formats, same record sizes.
pub open spec fn compatible(o: OutView, b: Seq<AreaView>) -> bool {
    o.formats == b.map_values(|a: AreaView| a.format) && o.sizes == b.map_values(
        |a: AreaView| a.size,
    )
}

/// Record `index` of every area of `b`.
pub open spec fn entry_of(b: Seq<AreaView>, index: int) -> Entry {
    Seq::new(b.len(), |k: int| b[k].records[index])
}

/// Where `e` first occurs among `es`.
pub open spec fn first_index(es: Seq<Entry>, e: Entry) -> Option<int>
    decreases es.len(),
{
    if es.len() == 0 {
        None
    } else {
        match first_index(es.drop_last(), e) {
            Some(x) => Some(x),
            None => if es.last() == e {
                Some(es.len() - 1)
            } else {
                None
            },
        }
    }
}

/// `e` added to `o`, and its index there: an identical entry already present is reused. Byte
/// equality is the only identity test safe for records whose internals are not decoded.
pub open spec fn added(o: OutView, e: Entry) -> (OutView, int) {
    match first_index(o.entries, e) {
        Some(x) => (o, x),
        None => (OutView { entries: o.entries.push(e), ..o }, o.entries.len() as int),
    }
}

/// How many records bank row `i` can address.
pub open spec fn capacity(i: int) -> int {
    (row_lsb_last(i) - row_lsb_first(i) + 1) * PC_PER_PAGE
}

/// Whether output bank `o` holds `n` areas throughout.
pub open spec fn out_wf(o: OutView, n: nat) -> bool {
    &&& o.formats.len() == n
    &&& o.sizes.len() == n
    &&& o.headers.len() == n
    &&& forall|j: int| 0 <= j < o.entries.len() ==> (#[trigger] o.entries[j]).len() == n
}

/// Whether every output bank holds as many areas as its row pairs.
pub open spec fn outs_wf(outs: Seq<Option<OutView>>) -> bool {
    &&& outs.len() == AREA_COUNT
    &&& forall|i: int|
        0 <= i < AREA_COUNT ==> (#[trigger] outs[i] matches Some(o) ==> out_wf(
            o,
            row_paired(i).len(),
        ))
}

/// The output banks before any scene is added.
pub open spec fn no_outputs() -> Seq<Option<OutView>> {
    Seq::new(AREA_COUNT as nat, |i: int| None)
}

/// One zone of a scene being rebuilt. `orig` is the scene as read, which decides whether the zone
/// is live; `cur` is the scene as rewritten so far. A zone playing a user record of bank `b` has
/// that record added to the output and its address rewritten to the record's new index.
pub open spec fn zone_step(
    banks: Seq<BankView>,
    b: int,
    outs: Seq<Option<OutView>>,
    orig: Seq<u8>,
    cur: Seq<u8>,
    z: int,
) -> Result<(Seq<Option<OutView>>, Seq<u8>)> {
    if !zone_live(orig, z) {
        Ok((outs, cur))
    } else {
        match addressed(cur, z) {
            None => Ok((outs, cur)),
            Some((i, old)) => {
                let tag = row_tag_bytes(i);
                match banks[b].bundles[i] {
                    None => Err(Error::NotBundled { tag }),
                    Some(bundle) => if old >= bundle[0].records.len() {
                        Err(Error::EntryOutOfRange { tag, index: old as usize })
                    } else {
                        let o = match outs[i] {
                            Some(o) => o,
                            None => fresh(bundle),
                        };
                        if !compatible(o, bundle) {
                            Err(Error::BundlesDiffer)
                        } else {
                            let (o2, x) = added(o, entry_of(bundle, old));
                            if x >= capacity(i) {
                                Err(Error::TooManyRecords { tag, maximum: capacity(i) as usize })
                            } else {
                                let t = tone_at(z);
                                Ok(
                                    (
                                        outs.update(i, Some(o2)),
                                        cur.update(t + 1, (row_lsb_first(i) + x / PC_PER_PAGE as int) as u8).update(
                                            t + 2,
                                            (x % PC_PER_PAGE as int) as u8,
                                        ),
                                    ),
                                )
                            }
                        }
                    },
                }
            },
        }
    }
}

/// The first `z` zones of scene `orig` of bank `b`, rebuilt.
pub open spec fn scene_steps(
    banks: Seq<BankView>,
    b: int,
    outs: Seq<Option<OutView>>,
    orig: Seq<u8>,
    z: int,
) -> Result<(Seq<Option<OutView>>, Seq<u8>)>
    decreases z,
{
    if z <= 0 {
        Ok((outs, orig))
    } else {
        match scene_steps(banks, b, outs, orig, z - 1) {
            Err(e) => Err(e),
            Ok((o, c)) => zone_step(banks, b, o, orig, c, z - 1),
        }
    }
}

/// The first `n` chosen scenes (each a bank and a record of it) rebuilt in order: the output
/// banks, and the rewritten scenes.
pub open spec fn rebuild_steps(banks: Seq<BankView>, recs: Seq<(int, Seq<u8>)>, n: int) -> Result<
    (Seq<Option<OutView>>, Seq<Seq<u8>>),
>
    decreases n,
{
    if n <= 0 {
        Ok((no_outputs(), Seq::empty()))
    } else {
        match rebuild_steps(banks, recs, n - 1) {
            Err(e) => Err(e),
            Ok((outs, scenes)) => match scene_steps(
                banks,
                recs[n - 1].0,
                outs,
                recs[n - 1].1,
                ZONES as int,
            ) {
                Err(e) => Err(e),
                Ok((o, s)) => Ok((o, scenes.push(s))),
            },
        }
    }
}

/// Records laid end to end.
pub open spec fn concat(rs: Seq<Seq<u8>>) -> Seq<u8>
    decreases rs.len(),
{
    if rs.len() == 0 {
        Seq::empty()
    } else {
        concat(rs.drop_last()) + rs.last()
    }
}

/// A table area holding `records`: the header with its count and record size rewritten, then
/// the records. Refused when the count does not fit four bytes or a record is not `size` long.
pub open spec fn area_body(header: Seq<u8>, size: nat, records: Seq<Seq<u8>>) -> Result<Seq<u8>> {
    if records.len() > u32::MAX {
        Err(Error::TooManyToEncode)
    } else if exists|k: int| 0 <= k < records.len() && (#[trigger] records[k]).len() != size {
        Err(Error::RecordSizeChanged)
    } else {
        Ok(
            u32_bytes(records.len() as u32) + u32_bytes(size as u32) + header.subrange(8, 16)
                + concat(records),
        )
    }
}

/// An area of the output: its tag, format stamp and body.
pub type Piece = (Seq<u8>, Seq<u8>, Seq<u8>);

/// The areas of output bank `o` for tags `0..k` of `tags`.
pub open spec fn bank_pieces(o: OutView, tags: Seq<[u8; 4]>, k: int) -> Result<Seq<Piece>>
    decreases k,
{
    if k <= 0 {
        Ok(Seq::empty())
    } else {
        match bank_pieces(o, tags, k - 1) {
            Err(e) => Err(e),
            Ok(ps) => match area_body(
                o.headers[k - 1],
                o.sizes[k - 1],
                o.entries.map_values(|e: Entry| e[k - 1]),
            ) {
                Err(e) => Err(e),
                Ok(body) => Ok(ps.push((tags[k - 1]@, o.formats[k - 1], body))),
            },
        }
    }
}

/// The areas of the output banks of rows `0..n`, in table order.
pub open spec fn out_pieces(outs: Seq<Option<OutView>>, n: int) -> Result<Seq<Piece>>
    decreases n,
{
    if n <= 0 {
        Ok(Seq::empty())
    } else {
        match out_pieces(outs, n - 1) {
            Err(e) => Err(e),
            Ok(ps) => match outs[n - 1] {
                None => Ok(ps),
                Some(o) => match bank_pieces(
                    o,
                    row_paired_bytes(n - 1),
                    row_paired_bytes(n - 1).len() as int,
                ) {
                    Err(e) => Err(e),
                    Ok(more) => Ok(ps + more),
                },
            },
        }
    }
}

/// The system and checksum areas, carried over unchanged.
pub open spec fn sysa() -> Seq<u8> {
    tag4('S', 'Y', 'S', 'a')
}

pub open spec fn difa() -> Seq<u8> {
    tag4('D', 'I', 'F', 'a')
}

/// Whether a rebuilt bank knows what to do with an area: write it anew, carry it over, or leave
/// it behind (the user sample bank, which a scene export never carries).
pub open spec fn known_tag(t: Seq<u8>) -> bool {
    ||| t == prfa()
    ||| paired_tags(AREA_COUNT as int).contains(t)
    ||| t == sysa()
    ||| t == difa()
    ||| t == tag4('S', 'M', 'P', 'a')
    ||| t == tag4('M', 'L', 'S', 'a')
    ||| t == tag4('U', 'S', 'D', 'a')
}

/// The first of the first `n` areas a rebuilt bank cannot carry.
pub open spec fn unknown_area(areas: Seq<Area>, n: int) -> Option<int>
    decreases n,
{
    if n <= 0 {
        None
    } else {
        match unknown_area(areas, n - 1) {
            Some(j) => Some(j),
            None => if !known_tag(areas[n - 1].tag@) {
                Some(n - 1)
            } else {
                None
            },
        }
    }
}

/// Area `tag` of file `s` carried over verbatim, when the file has it.
pub open spec fn kept(s: Seq<u8>, areas: Seq<Area>, tag: Seq<u8>) -> Result<Seq<Piece>> {
    match first_area(areas, tag) {
        None => Ok(Seq::empty()),
        Some(k) => if !fits(areas[k], s.len()) {
            Err(beyond(areas[k], s.len() as int))
        } else {
            Ok(seq![(areas[k].tag@, areas[k].format@, block(s, areas[k]))])
        },
    }
}

/// The bodies of `ps`, end to end.
pub open spec fn bodies(ps: Seq<Piece>) -> Seq<u8>
    decreases ps.len(),
{
    if ps.len() == 0 {
        Seq::empty()
    } else {
        bodies(ps.drop_last()) + ps.last().2
    }
}

/// The area-table entry of a piece whose body starts at `offset`.
pub open spec fn entry_bytes(p: Piece, offset: int) -> Seq<u8> {
    p.0 + p.1 + u32_bytes(offset as u32) + u32_bytes(p.2.len() as u32)
}

/// The area table of `ps`, their bodies laid out from `start`.
pub open spec fn table(ps: Seq<Piece>, start: int) -> Seq<u8>
    decreases ps.len(),
{
    if ps.len() == 0 {
        Seq::empty()
    } else {
        table(ps.drop_last(), start) + entry_bytes(ps.last(), start + bodies(ps.drop_last()).len())
    }
}

/// A container holding `ps`: the preamble of `base` with its header size rewritten, the area
/// table, then the bodies.
pub open spec fn laid_out(base: Seq<u8>, ps: Seq<Piece>) -> Seq<u8> {
    let n = ps.len() as int;
    u16_bytes((14 + 16 * n) as u16) + base.subrange(2, 16) + table(ps, 16 + 16 * n) + bodies(ps)
}

/// The bytes of a scene bank rebuilt from the chosen scenes `recs` of `banks`, over the file `s`
/// (with area table `areas`) whose preamble and system areas it keeps; or the first error.
pub open spec fn rebuilt(
    s: Seq<u8>,
    areas: Seq<Area>,
    banks: Seq<BankView>,
    recs: Seq<(int, Seq<u8>)>,
) -> Result<Seq<u8>> {
    match rebuild_steps(banks, recs, recs.len() as int) {
        Err(e) => Err(e),
        Ok((outs, scenes)) => match area_body(banks[0].header, banks[0].size, scenes) {
            Err(e) => Err(e),
            Ok(scene_body) => match out_pieces(outs, AREA_COUNT as int) {
                Err(e) => Err(e),
                Ok(rows) => match unknown_area(areas, areas.len() as int) {
                    Some(j) => Err(Error::UnknownArea { tag: areas[j].tag }),
                    None => match kept(s, areas, sysa()) {
                        Err(e) => Err(e),
                        Ok(sys) => match kept(s, areas, difa()) {
                            Err(e) => Err(e),
                            Ok(dif) => {
                                let ps = seq![(prfa(), banks[0].format, scene_body)] + rows + sys
                                    + dif;
                                if 14 + 16 * ps.len() > u16::MAX {
                                    Err(Error::TooManyAreas)
                                } else {
                                    Ok(laid_out(s, ps))
                                }
                            },
                        },
                    },
                },
            },
        },
    }
}


/// A record set as a sequence of byte sequences.
pub open spec fn entry_view(e: Vec<Vec<u8>>) -> Entry {
    e@.map_values(|r: Vec<u8>| r@)
}

/// An engine bank being rebuilt for the output.
pub struct OutputBundle {
    pub formats: Vec<[u8; 4]>,
    pub sizes: Vec<usize>,
    pub headers: Vec<[u8; 16]>,
    pub entries: Vec<Vec<Vec<u8>>>,
}

impl View for OutputBundle {
    type V = OutView;

    open spec fn view(&self) -> OutView {
        OutView {
            formats: self.formats@.map_values(|f: [u8; 4]| f@),
            sizes: self.sizes@.map_values(|x: usize| x as nat),
            headers: self.headers@.map_values(|h: [u8; 16]| h@),
            entries: self.entries@.map_values(|e: Vec<Vec<u8>>| entry_view(e)),
        }
    }
}

pub(crate) fn same_entry(a: &Vec<Vec<u8>>, b: &Vec<Vec<u8>>) -> (r: bool)
    ensures
        r == (entry_view(*a) == entry_view(*b)),
{
    if a.len() != b.len() {
        assert(entry_view(*a).len() != entry_view(*b).len());
        return false;
    }
    let mut k: usize = 0;
    while k < a.len()
        invariant
            k <= a@.len(),
            a@.len() == b@.len(),
            forall|j: int| 0 <= j < k ==> a@[j]@ == b@[j]@,
        decreases a@.len() - k,
    {
        if !bytes_equal(a[k].as_slice(), b[k].as_slice()) {
            assert(entry_view(*a)[k as int] != entry_view(*b)[k as int]);
            return false;
        }
        k = k + 1;
    }
    assert(entry_view(*a) =~= entry_view(*b));
    true
}

impl OutputBundle {
    /// An output bank shaped like `bundle`, holding nothing yet.
    fn shaped_like(bundle: &Vec<RecordArea>) -> (o: OutputBundle)
        ensures
            o@ == fresh(areas_view(*bundle)),
    {
        let ghost b = areas_view(*bundle);
        let mut formats: Vec<[u8; 4]> = Vec::new();
        let mut sizes: Vec<usize> = Vec::new();
        let mut headers: Vec<[u8; 16]> = Vec::new();
        let mut k: usize = 0;
        while k < bundle.len()
            invariant
                k <= bundle@.len(),
                b == areas_view(*bundle),
                formats@.len() == k,
                sizes@.len() == k,
                headers@.len() == k,
                forall|j: int| 0 <= j < k ==> formats@[j]@ == b[j].format,
                forall|j: int| 0 <= j < k ==> sizes@[j] as nat == b[j].size,
                forall|j: int| 0 <= j < k ==> headers@[j]@ == b[j].header,
            decreases bundle@.len() - k,
        {
            assert(b[k as int] == bundle@[k as int]@);
            formats.push(bundle[k].format);
            sizes.push(bundle[k].record_size);
            headers.push(bundle[k].header);
            k = k + 1;
        }
        let o = OutputBundle { formats, sizes, headers, entries: Vec::new() };
        assert(o@.formats =~= b.map_values(|a: AreaView| a.format));
        assert(o@.sizes =~= b.map_values(|a: AreaView| a.size));
        assert(o@.headers =~= b.map_values(|a: AreaView| a.header));
        assert(o@.entries =~= Seq::<Entry>::empty());
        o
    }

    /// Whether records of `bundle` can join this bank.
    fn accepts(&self, bundle: &Vec<RecordArea>) -> (r: bool)
        ensures
            r == compatible(self@, areas_view(*bundle)),
    {
        let ghost b = areas_view(*bundle);
        if self.formats.len() != bundle.len() || self.sizes.len() != bundle.len() {
            assert(self@.formats.len() != b.map_values(|a: AreaView| a.format).len()
                || self@.sizes.len() != b.map_values(|a: AreaView| a.size).len());
            return false;
        }
        let mut k: usize = 0;
        while k < bundle.len()
            invariant
                k <= bundle@.len(),
                self.formats@.len() == bundle@.len(),
                self.sizes@.len() == bundle@.len(),
                b == areas_view(*bundle),
                forall|j: int| 0 <= j < k ==> self.formats@[j]@ == b[j].format,
                forall|j: int| 0 <= j < k ==> self.sizes@[j] == b[j].size,
            decreases bundle@.len() - k,
        {
            assert(b[k as int] == bundle@[k as int]@);
            if !same_tag(&self.formats[k], &bundle[k].format) || self.sizes[k] != bundle[k].record_size {
                assert(self@.formats[k as int] != b.map_values(|a: AreaView| a.format)[k as int]
                    || self@.sizes[k as int] != b.map_values(|a: AreaView| a.size)[k as int]);
                return false;
            }
            assert(self.formats@[k as int]@ == bundle@[k as int].format@);
            assert(bundle@[k as int]@.format == bundle@[k as int].format@);
            assert(self.sizes@[k as int] == bundle@[k as int].record_size);
            k = k + 1;
        }
        assert(self@.formats =~= b.map_values(|a: AreaView| a.format));
        assert(self@.sizes =~= b.map_values(|a: AreaView| a.size));
        true
    }

    /// Add `entry`, returning its index: the existing one when an identical entry is there.
    fn add(&mut self, entry: Vec<Vec<u8>>) -> (x: usize)
        ensures
            (final(self)@, x as int) == added(old(self)@, entry_view(entry)),
            final(self).formats == old(self).formats,
            final(self).sizes == old(self).sizes,
            final(self).headers == old(self).headers,
    {
        let ghost es = self@.entries;
        let mut i: usize = 0;
        while i < self.entries.len()
            invariant
                i <= self.entries@.len(),
                es == self@.entries,
                first_index(es.subrange(0, i as int), entry_view(entry)) is None,
            decreases self.entries@.len() - i,
        {
            proof {
                assert(es.subrange(0, i + 1).drop_last() =~= es.subrange(0, i as int));
            }
            if same_entry(&self.entries[i], &entry) {
                proof {
                    lemma_first_index_prefix(es, entry_view(entry), i + 1);
                }
                return i;
            }
            i = i + 1;
        }
        assert(es.subrange(0, i as int) =~= es);
        let x = self.entries.len();
        self.entries.push(entry);
        assert(self@.entries =~= es.push(entry_view(entry)));
        x
    }
}

proof fn lemma_first_index_prefix(es: Seq<Entry>, e: Entry, n: int)
    requires
        0 < n <= es.len(),
        first_index(es.subrange(0, n), e) == Some(n - 1),
    ensures
        first_index(es, e) == Some(n - 1),
    decreases es.len(),
{
    if es.len() > n {
        assert(es.drop_last().subrange(0, n) =~= es.subrange(0, n));
        lemma_first_index_prefix(es.drop_last(), e, n);
    } else {
        assert(es.subrange(0, n) =~= es);
    }
}

/// Record `index` of every area of `bundle`.
fn entry_at(bundle: &Vec<RecordArea>, index: usize) -> (e: Vec<Vec<u8>>)
    requires
        bundle_wf(areas_view(*bundle)),
        index < areas_view(*bundle)[0].records.len(),
    ensures
        entry_view(e) == entry_of(areas_view(*bundle), index as int),
{
    let ghost b = areas_view(*bundle);
    let mut e: Vec<Vec<u8>> = Vec::new();
    let mut k: usize = 0;
    while k < bundle.len()
        invariant
            k <= bundle@.len(),
            b == areas_view(*bundle),
            bundle_wf(b),
            index < b[0].records.len(),
            e@.len() == k,
            forall|j: int| 0 <= j < k ==> e@[j]@ == b[j].records[index as int],
        decreases bundle@.len() - k,
    {
        assert(b[k as int].records.len() == b[0].records.len());
        assert(b[k as int] == bundle@[k as int]@);
        let r = &bundle[k].records[index];
        let copy = copy_range(r.as_slice(), 0, r.len());
        e.push(copy);
        k = k + 1;
    }
    assert(entry_view(e) =~= entry_of(b, index as int));
    e
}


/// The banks scenes are taken from.
pub open spec fn banks_view(banks: Seq<&ExportBank>) -> Seq<BankView> {
    banks.map_values(|b: &ExportBank| b@)
}

/// The output banks, per row.
pub open spec fn outs_view(outs: Seq<Option<OutputBundle>>) -> Seq<Option<OutView>> {
    outs.map_values(
        |o: Option<OutputBundle>|
            match o {
                Some(b) => Some(b@),
                None => None,
            },
    )
}

proof fn lemma_scene_err(
    banks: Seq<BankView>,
    b: int,
    outs: Seq<Option<OutView>>,
    orig: Seq<u8>,
    k: int,
    n: int,
)
    requires
        0 <= k <= n,
        scene_steps(banks, b, outs, orig, k) is Err,
    ensures
        scene_steps(banks, b, outs, orig, n) == scene_steps(banks, b, outs, orig, k),
    decreases n - k,
{
    if k < n {
        lemma_scene_err(banks, b, outs, orig, k, n - 1);
    }
}

/// Rebuild scene `orig` of bank `b`: every live zone playing a user record gets that record added
/// to its output bank and its address rewritten.
fn rebuild_scene(
    banks: &Vec<&ExportBank>,
    b: usize,
    outs: &mut Vec<Option<OutputBundle>>,
    orig: &Vec<u8>,
) -> (r: Result<Vec<u8>>)
    requires
        b < banks@.len(),
        forall|k: int| 0 <= k < banks@.len() ==> bank_wf(#[trigger] banks@[k]@),
        outs_wf(outs_view(old(outs)@)),
    ensures
        match scene_steps(banks_view(banks@), b as int, outs_view(old(outs)@), orig@, ZONES as int) {
            Ok((o, c)) => r matches Ok(s) && s@ == c && outs_view(final(outs)@) == o && outs_wf(o),
            Err(e) => r == Err::<Vec<u8>, Error>(e),
        },
{
    let ghost bv = banks_view(banks@);
    let ghost start = outs_view(outs@);
    let mut cur = copy_range(orig.as_slice(), 0, orig.len());
    assert(cur@ =~= orig@);
    let mut z: usize = 0;
    while z < ZONES
        invariant
            z <= ZONES,
            b < banks@.len(),
            bv == banks_view(banks@),
            start == outs_view(old(outs)@),
            forall|k: int| 0 <= k < banks@.len() ==> bank_wf(#[trigger] banks@[k]@),
            outs@.len() == AREA_COUNT,
            outs_wf(outs_view(outs@)),
            cur@.len() == orig@.len(),
            scene_steps(bv, b as int, start, orig@, z as int) == Ok::<(Seq<Option<OutView>>, Seq<u8>), Error>(
                (outs_view(outs@), cur@),
            ),
        decreases ZONES - z,
    {
        let ghost before_outs = outs_view(outs@);
        let ghost before_cur = cur@;
        if is_live(orig.as_slice(), z) {
            match zone_address(cur.as_slice(), z) {
                None => {},
                Some((i, old_index)) => {
                    let spec_row = area_at(i);
                    proof {
                        lemma_row_bytes(spec_row, i as int);
                    }
                    let tag = spec_row.tag;
                    let bank = banks[b];
                    assert(bv[b as int] == bank@);
                    assert(bank_wf(banks@[b as int]@));
                    match &bank.bundles[i] {
                        None => {
                            assert(bank@.bundles[i as int] is None);
                            assert(zone_step(bv, b as int, before_outs, orig@, before_cur, z as int)
                                == Err::<(Seq<Option<OutView>>, Seq<u8>), Error>(Error::NotBundled { tag }));
                            proof {
                                assert(scene_steps(bv, b as int, start, orig@, z + 1) == Err::<(Seq<Option<OutView>>, Seq<u8>), Error>(Error::NotBundled { tag }));
                                lemma_scene_err(bv, b as int, start, orig@, z + 1, ZONES as int);
                                assert(scene_steps(bv, b as int, start, orig@, ZONES as int) == Err::<(Seq<Option<OutView>>, Seq<u8>), Error>(Error::NotBundled { tag }));
                            }
                            return Err(Error::NotBundled { tag });
                        },
                        Some(bundle) => {
                            assert(bank@.bundles[i as int] == Some(areas_view(*bundle)));
                            assert(bundle_wf(areas_view(*bundle)));
                            assert(areas_view(*bundle)[0] == bundle@[0]@);
                            if old_index >= bundle[0].records.len() {
                                assert(zone_step(bv, b as int, before_outs, orig@, before_cur, z as int)
                                    == Err::<(Seq<Option<OutView>>, Seq<u8>), Error>(Error::EntryOutOfRange { tag, index: old_index }));
                                proof {
                                    lemma_scene_err(bv, b as int, start, orig@, z + 1, ZONES as int);
                                }
                                return Err(Error::EntryOutOfRange { tag, index: old_index });
                            }
                            let taken = outs.remove(i);
                            let mut o = match taken {
                                Some(o) => o,
                                None => OutputBundle::shaped_like(bundle),
                            };
                            assert(o@ == match before_outs[i as int] {
                                Some(o) => o,
                                None => fresh(areas_view(*bundle)),
                            });
                            if !o.accepts(bundle) {
                                proof {
                                    lemma_scene_err(bv, b as int, start, orig@, z + 1, ZONES as int);
                                }
                                return Err(Error::BundlesDiffer);
                            }
                            let entry = entry_at(bundle, old_index);
                            let x = o.add(entry);
                            match spec_row.encode(x) {
                                Err(e) => {
                                    proof {
                                        lemma_scene_err(bv, b as int, start, orig@, z + 1, ZONES as int);
                                    }
                                    return Err(e);
                                },
                                Ok((lsb, pc)) => {
                                    let t = 0x194 + z * 0x48;
                                    cur.set(t + 1, lsb);
                                    cur.set(t + 2, pc);
                                    outs.insert(i, Some(o));
                                    assert(outs_view(outs@) =~= before_outs.update(i as int, Some(o@)));
                                    assert(out_wf(o@, row_paired(i as int).len()));
                                    assert(outs_wf(outs_view(outs@)));
                                },
                            }
                        },
                    }
                },
            }
        }
        z = z + 1;
    }
    Ok(cur)
}


/// A table area holding `records` after `header`'s count and record size are rewritten.
fn build_area(header: &[u8; 16], size: usize, records: &Vec<Vec<u8>>) -> (r: Result<Vec<u8>>)
    ensures
        match area_body(header@, size as nat, records@.map_values(|r: Vec<u8>| r@)) {
            Ok(b) => r matches Ok(v) && v@ == b,
            Err(e) => r == Err::<Vec<u8>, Error>(e),
        },
{
    let ghost rs = records@.map_values(|r: Vec<u8>| r@);
    if records.len() > 0xffff_ffff {
        return Err(Error::TooManyToEncode);
    }
    let mut k: usize = 0;
    while k < records.len()
        invariant
            k <= records@.len(),
            records@.len() <= 0xffff_ffff,
            rs == records@.map_values(|r: Vec<u8>| r@),
            forall|j: int| 0 <= j < k ==> (#[trigger] rs[j]).len() == size,
        decreases records@.len() - k,
    {
        if records[k].len() != size {
            assert(rs[k as int].len() != size);
            assert(exists|j: int| 0 <= j < rs.len() && (#[trigger] rs[j]).len() != size as nat);
            return Err(Error::RecordSizeChanged);
        }
        k = k + 1;
    }
    let mut area: Vec<u8> = Vec::new();
    push_u32(&mut area, records.len() as u32);
    push_u32(&mut area, size as u32);
    push_all(&mut area, vstd::slice::slice_subrange(header.as_slice(), 8, 16));
    let ghost head = area@;
    assert(head == u32_bytes(records@.len() as u32) + u32_bytes(size as u32) + header@.subrange(8, 16));
    let mut i: usize = 0;
    while i < records.len()
        invariant
            i <= records@.len(),
            rs == records@.map_values(|r: Vec<u8>| r@),
            area@ == head + concat(rs.subrange(0, i as int)),
        decreases records@.len() - i,
    {
        push_all(&mut area, records[i].as_slice());
        assert(rs.subrange(0, i + 1).drop_last() =~= rs.subrange(0, i as int));
        i = i + 1;
        assert(area@ =~= head + concat(rs.subrange(0, i as int)));
    }
    assert(rs.subrange(0, i as int) =~= rs);
    Ok(area)
}

/// The records of area `k` of every entry.
fn column(entries: &Vec<Vec<Vec<u8>>>, k: usize) -> (c: Vec<Vec<u8>>)
    requires
        forall|j: int| 0 <= j < entries@.len() ==> k < (#[trigger] entries@[j])@.len(),
    ensures
        c@.map_values(|r: Vec<u8>| r@) == entries@.map_values(|e: Vec<Vec<u8>>| entry_view(e)).map_values(
            |e: Entry| e[k as int],
        ),
{
    let mut c: Vec<Vec<u8>> = Vec::new();
    let mut j: usize = 0;
    while j < entries.len()
        invariant
            j <= entries@.len(),
            forall|i: int| 0 <= i < entries@.len() ==> k < (#[trigger] entries@[i])@.len(),
            c@.len() == j,
            forall|i: int| 0 <= i < j ==> (#[trigger] c@[i])@ == entries@[i]@[k as int]@,
        decreases entries@.len() - j,
    {
        let r = &entries[j][k];
        c.push(copy_range(r.as_slice(), 0, r.len()));
        j = j + 1;
    }
    assert(c@.map_values(|r: Vec<u8>| r@) =~= entries@.map_values(|e: Vec<Vec<u8>>| entry_view(e)).map_values(
        |e: Entry| e[k as int],
    ));
    c
}

/// An area of the output: tag, format stamp and body.
pub type AreaOut = ([u8; 4], [u8; 4], Vec<u8>);

pub open spec fn pieces_view(ps: Seq<AreaOut>) -> Seq<Piece> {
    ps.map_values(|p: AreaOut| (p.0@, p.1@, p.2@))
}


/// The chosen scenes, each given as a bank and a scene of it.
pub open spec fn picks_view(banks: Seq<BankView>, picks: Seq<(usize, usize)>) -> Seq<(int, Seq<u8>)> {
    picks.map_values(|p: (usize, usize)| (p.0 as int, banks[p.0 as int].scenes[p.1 as int]))
}

proof fn lemma_steps_err(banks: Seq<BankView>, recs: Seq<(int, Seq<u8>)>, k: int, n: int)
    requires
        0 <= k <= n,
        rebuild_steps(banks, recs, k) is Err,
    ensures
        rebuild_steps(banks, recs, n) == rebuild_steps(banks, recs, k),
    decreases n - k,
{
    if k < n {
        lemma_steps_err(banks, recs, k, n - 1);
    }
}

/// Rebuild the chosen scenes in order.
fn rebuild_scenes(banks: &Vec<&ExportBank>, picks: &Vec<(usize, usize)>) -> (r: Result<
    (Vec<Option<OutputBundle>>, Vec<Vec<u8>>),
>)
    requires
        forall|k: int| 0 <= k < banks@.len() ==> bank_wf(#[trigger] banks@[k]@),
        forall|j: int|
            0 <= j < picks@.len() ==> (#[trigger] picks@[j]).0 < banks@.len() && picks@[j].1
                < banks@[picks@[j].0 as int]@.scenes.len(),
    ensures
        match rebuild_steps(
            banks_view(banks@),
            picks_view(banks_view(banks@), picks@),
            picks@.len() as int,
        ) {
            Ok((o, sc)) => r matches Ok((ro, rs)) && outs_view(ro@) == o && outs_wf(o)
                && rs@.map_values(|r: Vec<u8>| r@) == sc,
            Err(e) => r == Err::<(Vec<Option<OutputBundle>>, Vec<Vec<u8>>), Error>(e),
        },
{
    let ghost bv = banks_view(banks@);
    let ghost recs = picks_view(bv, picks@);
    let mut outs: Vec<Option<OutputBundle>> = Vec::new();
    let mut i: usize = 0;
    while i < AREA_COUNT
        invariant
            i <= AREA_COUNT,
            outs@.len() == i,
            forall|j: int| 0 <= j < i ==> outs@[j] is None,
        decreases AREA_COUNT - i,
    {
        outs.push(None);
        i = i + 1;
    }
    assert(outs_view(outs@) =~= no_outputs());
    let mut scenes: Vec<Vec<u8>> = Vec::new();
    assert(scenes@.map_values(|r: Vec<u8>| r@) =~= Seq::<Seq<u8>>::empty());
    let mut k: usize = 0;
    while k < picks.len()
        invariant
            k <= picks@.len(),
            bv == banks_view(banks@),
            recs == picks_view(bv, picks@),
            forall|k: int| 0 <= k < banks@.len() ==> bank_wf(#[trigger] banks@[k]@),
            forall|j: int|
                0 <= j < picks@.len() ==> (#[trigger] picks@[j]).0 < banks@.len() && picks@[j].1
                    < banks@[picks@[j].0 as int]@.scenes.len(),
            outs_wf(outs_view(outs@)),
            outs@.len() == AREA_COUNT,
            rebuild_steps(bv, recs, k as int) == Ok::<(Seq<Option<OutView>>, Seq<Seq<u8>>), Error>(
                (outs_view(outs@), scenes@.map_values(|r: Vec<u8>| r@)),
            ),
        decreases picks@.len() - k,
    {
        let (b, n) = picks[k];
        let bank = banks[b];
        assert(bank@.scenes == bank.scenes@.map_values(|r: Vec<u8>| r@));
        let orig = &bank.scenes[n];
        assert(recs[k as int] == (b as int, orig@));
        let ghost before = scenes@.map_values(|r: Vec<u8>| r@);
        match rebuild_scene(banks, b, &mut outs, orig) {
            Ok(scene) => {
                scenes.push(scene);
                k = k + 1;
                assert(scenes@.map_values(|r: Vec<u8>| r@) =~= before.push(scene@));
            },
            Err(e) => {
                proof {
                    lemma_steps_err(bv, recs, k + 1, picks@.len() as int);
                }
                return Err(e);
            },
        }
    }
    Ok((outs, scenes))
}


proof fn lemma_bank_pieces_err(o: OutView, tags: Seq<[u8; 4]>, k: int, n: int)
    requires
        0 <= k <= n,
        bank_pieces(o, tags, k) is Err,
    ensures
        bank_pieces(o, tags, n) == bank_pieces(o, tags, k),
    decreases n - k,
{
    if k < n {
        lemma_bank_pieces_err(o, tags, k, n - 1);
    }
}

/// Append the areas of output bank `o` of row `i`.
fn push_bank_pieces(pieces: &mut Vec<AreaOut>, o: &OutputBundle, i: usize) -> (r: Result<()>)
    requires
        i < AREA_COUNT,
        out_wf(o@, row_paired(i as int).len()),
    ensures
        match bank_pieces(o@, row_paired_bytes(i as int), row_paired_bytes(i as int).len() as int) {
            Ok(more) => r is Ok && pieces_view(final(pieces)@) == pieces_view(old(pieces)@) + more,
            Err(e) => r == Err::<(), Error>(e),
        },
{
    let spec_row = area_at(i);
    proof {
        lemma_row_bytes(spec_row, i as int);
    }
    let tags = spec_row.paired();
    let ghost tv = row_paired_bytes(i as int);
    assert(tags@ =~= tv);
    let ghost start = pieces_view(pieces@);
    let mut k: usize = 0;
    while k < tags.len()
        invariant
            k <= tags@.len(),
            tags@ == tv,
            tv == row_paired_bytes(i as int),
            tv.len() == row_paired(i as int).len(),
            out_wf(o@, tv.len()),
            bank_pieces(o@, tv, k as int) matches Ok(ps) && pieces_view(pieces@) == start + ps,
        decreases tags@.len() - k,
    {
        let ghost ps = bank_pieces(o@, tv, k as int)->Ok_0;
        proof {
            assert forall|j: int| 0 <= j < o.entries@.len() implies k < (#[trigger] o.entries@[j])@.len() by {
                assert(o@.entries[j] == entry_view(o.entries@[j]));
            }
        }
        let records = column(&o.entries, k);
        assert(records@.map_values(|r: Vec<u8>| r@) =~= o@.entries.map_values(|e: Entry| e[k as int]));
        assert(o@.headers[k as int] == o.headers@[k as int]@);
        assert(o@.sizes[k as int] == o.sizes@[k as int] as nat);
        match build_area(&o.headers[k], o.sizes[k], &records) {
            Ok(body) => {
                let ghost before = pieces@;
                pieces.push((tags[k], o.formats[k], body));
                assert(pieces_view(pieces@) =~= pieces_view(before).push((tv[k as int]@, o@.formats[k as int], body@)));
                k = k + 1;
                assert(pieces_view(pieces@) =~= start + bank_pieces(o@, tv, k as int)->Ok_0);
            },
            Err(e) => {
                proof {
                    assert(bank_pieces(o@, tv, k + 1) == Err::<Seq<Piece>, Error>(e));
                    lemma_bank_pieces_err(o@, tv, k + 1, tv.len() as int);
                }
                return Err(e);
            },
        }
    }
    Ok(())
}

proof fn lemma_out_pieces_err(outs: Seq<Option<OutView>>, k: int, n: int)
    requires
        0 <= k <= n,
        out_pieces(outs, k) is Err,
    ensures
        out_pieces(outs, n) == out_pieces(outs, k),
    decreases n - k,
{
    if k < n {
        lemma_out_pieces_err(outs, k, n - 1);
    }
}

/// The areas of every output bank, in table order.
fn all_bank_pieces(pieces: &mut Vec<AreaOut>, outs: &Vec<Option<OutputBundle>>) -> (r: Result<()>)
    requires
        outs_wf(outs_view(outs@)),
    ensures
        match out_pieces(outs_view(outs@), AREA_COUNT as int) {
            Ok(more) => r is Ok && pieces_view(final(pieces)@) == pieces_view(old(pieces)@) + more,
            Err(e) => r == Err::<(), Error>(e),
        },
{
    let ghost ov = outs_view(outs@);
    let ghost start = pieces_view(pieces@);
    let mut i: usize = 0;
    while i < AREA_COUNT
        invariant
            i <= AREA_COUNT,
            ov == outs_view(outs@),
            outs_wf(ov),
            out_pieces(ov, i as int) matches Ok(ps) && pieces_view(pieces@) == start + ps,
        decreases AREA_COUNT - i,
    {
        let ghost before = pieces_view(pieces@);
        match &outs[i] {
            None => {},
            Some(o) => {
                assert(ov[i as int] == Some(o@));
                match push_bank_pieces(pieces, o, i) {
                    Ok(()) => {},
                    Err(e) => {
                        proof {
                            lemma_out_pieces_err(ov, i + 1, AREA_COUNT as int);
                        }
                        return Err(e);
                    },
                }
            },
        }
        i = i + 1;
        assert(pieces_view(pieces@) =~= start + out_pieces(ov, i as int)->Ok_0);
    }
    Ok(())
}


fn is_tag(tag: &[u8; 4], a: u8, b: u8, c: u8, d: u8) -> (r: bool)
    ensures
        r == (tag@ == seq![a, b, c, d]),
{
    let t = tag_of(a, b, c, d);
    crate::bytes::same_tag(tag, &t)
}

/// Whether a rebuilt bank knows what to do with area `tag`; `deps` are the engine areas.
fn is_known(tag: &[u8; 4], deps: &Vec<[u8; 4]>) -> (r: bool)
    requires
        deps@.map_values(|t: [u8; 4]| t@) == paired_tags(AREA_COUNT as int),
    ensures
        r == known_tag(tag@),
{
    let ghost pt = paired_tags(AREA_COUNT as int);
    let mut found = false;
    let mut k: usize = 0;
    while k < deps.len()
        invariant
            k <= deps@.len(),
            deps@.map_values(|t: [u8; 4]| t@) == pt,
            found == exists|j: int| 0 <= j < k && pt[j] == tag@,
        decreases deps@.len() - k,
    {
        assert(pt[k as int] == deps@[k as int]@);
        if crate::bytes::same_tag(&deps[k], tag) {
            found = true;
        }
        k = k + 1;
    }
    assert(found == pt.contains(tag@));
    let r = is_tag(tag, 0x50, 0x52, 0x46, 0x61) || found || is_tag(tag, 0x53, 0x59, 0x53, 0x61)
        || is_tag(tag, 0x44, 0x49, 0x46, 0x61) || is_tag(tag, 0x53, 0x4d, 0x50, 0x61) || is_tag(
        tag,
        0x4d,
        0x4c,
        0x53,
        0x61,
    ) || is_tag(tag, 0x55, 0x53, 0x44, 0x61);
    proof {
        assert(prfa() =~= seq![0x50u8, 0x52, 0x46, 0x61]);
        assert(sysa() =~= seq![0x53u8, 0x59, 0x53, 0x61]);
        assert(difa() =~= seq![0x44u8, 0x49, 0x46, 0x61]);
        assert(tag4('S', 'M', 'P', 'a') =~= seq![0x53u8, 0x4d, 0x50, 0x61]);
        assert(tag4('M', 'L', 'S', 'a') =~= seq![0x4du8, 0x4c, 0x53, 0x61]);
        assert(tag4('U', 'S', 'D', 'a') =~= seq![0x55u8, 0x53, 0x44, 0x61]);
    }
    r
}

/// The first area the rebuilt bank could not carry.
fn first_unknown(svd: &Svd) -> (r: Option<usize>)
    ensures
        opt_int(r) == unknown_area(svd.areas@, svd.areas@.len() as int),
        r matches Some(j) ==> j < svd.areas@.len(),
{
    let deps = dependency_tags();
    let mut k: usize = 0;
    while k < svd.areas.len()
        invariant
            k <= svd.areas@.len(),
            deps@.map_values(|t: [u8; 4]| t@) == paired_tags(AREA_COUNT as int),
            unknown_area(svd.areas@, k as int) is None,
        decreases svd.areas@.len() - k,
    {
        if !is_known(&svd.areas[k].tag, &deps) {
            proof {
                lemma_unknown_at(svd.areas@, k as int + 1, svd.areas@.len() as int);
            }
            return Some(k);
        }
        k = k + 1;
    }
    None
}

proof fn lemma_unknown_at(areas: Seq<Area>, k: int, n: int)
    requires
        0 <= k <= n,
        unknown_area(areas, k) is Some,
    ensures
        unknown_area(areas, n) == unknown_area(areas, k),
    decreases n - k,
{
    if k < n {
        lemma_unknown_at(areas, k, n - 1);
    }
}

/// Append area `tag` of `raw` unchanged, when the file has it.
fn keep(raw: &Raw, svd: &Svd, tag: [u8; 4], pieces: &mut Vec<AreaOut>) -> (r: Result<()>)
    ensures
        match kept(raw@, svd.areas@, tag@) {
            Ok(ps) => r is Ok && pieces_view(final(pieces)@) == pieces_view(old(pieces)@) + ps,
            Err(e) => r == Err::<(), Error>(e),
        },
{
    match svd.area(&tag) {
        None => {
            assert(kept(raw@, svd.areas@, tag@) == Ok::<Seq<Piece>, Error>(Seq::empty()));
            assert(pieces_view(pieces@) =~= pieces_view(pieces@) + Seq::<Piece>::empty());
            Ok(())
        },
        Some(area) => {
            let ghost k = first_area(svd.areas@, tag@)->Some_0;
            assert(svd.areas@[k] == *area);
            let bytes = match svd.area_bytes(raw, area) {
                Ok(b) => b,
                Err(e) => {
                    assert(!fits(*area, raw@.len()));
                    return Err(e);
                },
            };
            let body = copy_range(bytes, 0, bytes.len());
            assert(body@ =~= bytes@);
            assert(body@ == block(raw@, svd.areas@[k]));
            let ghost before = pieces_view(pieces@);
            pieces.push((area.tag, area.format, body));
            assert(pieces_view(pieces@) =~= before + seq![(area.tag@, area.format@, body@)]);
            assert(kept(raw@, svd.areas@, tag@) == Ok::<Seq<Piece>, Error>(seq![(area.tag@, area.format@, body@)]));
            Ok(())
        },
    }
}

/// The bytes of a container holding `pieces`, over the preamble of `base`.
fn lay_out(base: &[u8], pieces: &Vec<AreaOut>) -> (out: Vec<u8>)
    requires
        base@.len() >= 16,
        14 + 16 * pieces@.len() <= u16::MAX,
    ensures
        out@ == laid_out(base@, pieces_view(pieces@)),
{
    let ghost pv = pieces_view(pieces@);
    let n = pieces.len();
    let mut data: Vec<u8> = Vec::new();
    let mut starts: Vec<usize> = Vec::new();
    let mut k: usize = 0;
    while k < n
        invariant
            k <= n == pieces@.len(),
            pv == pieces_view(pieces@),
            data@ == bodies(pv.subrange(0, k as int)),
            starts@.len() == k,
            forall|j: int| 0 <= j < k ==> starts@[j] == bodies(#[trigger] pv.subrange(0, j)).len(),
        decreases n - k,
    {
        assert(pv.subrange(0, k + 1).drop_last() =~= pv.subrange(0, k as int));
        starts.push(data.len());
        push_all(&mut data, pieces[k].2.as_slice());
        k = k + 1;
        assert(data@ =~= bodies(pv.subrange(0, k as int)));
    }
    let first: usize = 16 + 16 * n;
    let mut out: Vec<u8> = Vec::new();
    push_u16(&mut out, (14 + 16 * n) as u16);
    push_all(&mut out, vstd::slice::slice_subrange(base, 2, 16));
    let ghost head = out@;
    let mut i: usize = 0;
    while i < n
        invariant
            i <= n == pieces@.len(),
            pv == pieces_view(pieces@),
            first == 16 + 16 * n,
            starts@.len() == n,
            forall|j: int| 0 <= j < n ==> starts@[j] == bodies(#[trigger] pv.subrange(0, j)).len(),
            out@ == head + table(pv.subrange(0, i as int), first as int),
        decreases n - i,
    {
        assert(pv.subrange(0, i + 1).drop_last() =~= pv.subrange(0, i as int));
        let offset: u128 = first as u128 + starts[i] as u128;
        let p = &pieces[i];
        push_all(&mut out, p.0.as_slice());
        push_all(&mut out, p.1.as_slice());
        push_u32(&mut out, offset as u32);
        push_u32(&mut out, p.2.len() as u32);
        i = i + 1;
        assert(out@ =~= head + table(pv.subrange(0, i as int), first as int));
    }
    assert(pv.subrange(0, n as int) =~= pv);
    push_all(&mut out, data.as_slice());
    assert(head =~= u16_bytes((14 + 16 * n) as u16) + base@.subrange(2, 16));
    out
}


/// Whether `r` is what rebuilding the chosen scenes `recs` of `banks` over file `s` gives: the
/// first error on the way, or the rebuilt bytes exactly when they check clean.
pub open spec fn rebuild_outcome(
    r: Result<Raw>,
    s: Seq<u8>,
    areas: Seq<Area>,
    banks: Seq<BankView>,
    recs: Seq<(int, Seq<u8>)>,
) -> bool {
    match rebuilt(s, areas, banks, recs) {
        Err(e) => r == Err::<Raw, Error>(e),
        Ok(bytes) => vouched(r, bytes) && (r matches Ok(o) ==> o@ == bytes && checks_clean(bytes)) && (
        r is Err ==> !checks_clean(bytes)),
    }
}

/// Rebuild the chosen scenes into a self-contained scene bank over the file `base`, whose
/// preamble, system and checksum areas it keeps; scene records take the layout of `banks[0]`.
pub fn rebuild(base: &Raw, banks: &Vec<&ExportBank>, picks: &Vec<(usize, usize)>) -> (r: Result<Raw>)
    requires
        banks@.len() >= 1,
        forall|k: int| 0 <= k < banks@.len() ==> bank_wf(#[trigger] banks@[k]@),
        forall|j: int|
            0 <= j < picks@.len() ==> (#[trigger] picks@[j]).0 < banks@.len() && picks@[j].1
                < banks@[picks@[j].0 as int]@.scenes.len(),
    ensures
        envelope_error(base@) is Some ==> r is Err,
        forall|svd: Svd| #[trigger]
            parses_as(svd, base@) ==> rebuild_outcome(
                r,
                base@,
                svd.areas@,
                banks_view(banks@),
                picks_view(banks_view(banks@), picks@),
            ),
{
    let ghost bv = banks_view(banks@);
    let ghost recs = picks_view(bv, picks@);
    let (outs, scenes) = rebuild_scenes(banks, picks)?;
    let header_bank = banks[0];
    assert(bv[0] == header_bank@);
    assert(header_bank@.header == header_bank.scene_header@);
    let scene_body = build_area(&header_bank.scene_header, header_bank.scene_record_size, &scenes)?;
    let mut pieces: Vec<AreaOut> = Vec::new();
    pieces.push((prfa_tag_value(), header_bank.scene_format, scene_body));
    let ghost first = pieces_view(pieces@);
    assert(first =~= seq![(prfa(), bv[0].format, scene_body@)]);
    all_bank_pieces(&mut pieces, &outs)?;
    let svd = Svd::parse(base)?;
    proof {
        assert forall|other: Svd| #[trigger] parses_as(other, base@) implies other.areas@
            == svd.areas@ by {
            crate::diff::lemma_areas_unique(other, svd, base@);
        }
    }
    match first_unknown(&svd) {
        Some(j) => {
            return Err(Error::UnknownArea { tag: svd.areas[j].tag });
        },
        None => {},
    }
    let ghost mid = pieces_view(pieces@);
    keep(base, &svd, tag_of(0x53, 0x59, 0x53, 0x61), &mut pieces)?;
    let ghost mid2 = pieces_view(pieces@);
    keep(base, &svd, tag_of(0x44, 0x49, 0x46, 0x61), &mut pieces)?;
    proof {
        assert(sysa() =~= seq![0x53u8, 0x59, 0x53, 0x61]);
        assert(difa() =~= seq![0x44u8, 0x49, 0x46, 0x61]);
    }
    if pieces.len() > 4095 {
        return Err(Error::TooManyAreas);
    }
    let bytes = lay_out(base.bytes(), &pieces);
    let out = Raw::from_bytes(bytes);
    vouch(out)
}

} // verus!
