//! Reading an SVZ tone bank: its engine areas, its sample slots and their audio, and whatever
//! else it carries.

use vstd::prelude::*;

use crate::address::{
    area_at, lemma_row_bytes, row_paired, row_paired_bytes, row_tag, row_tag_bytes, tag4,
    AREA_COUNT,
};
use crate::bytes::{copy_range, le32, read_u32, same_tag, tag_of};
use crate::container::records::{data_start, table_error, whole_records, HEADER_LEN};
use crate::container::svd::{envelope_error, first_area, fits, kind_of, parses_as, PREAMBLE_LEN};
use crate::container::{Area, Kind, Raw, RecordTable, Svd};
use crate::diff::{beyond, block};
use crate::repackage::rebuild::Piece;
use crate::{Error, Result};

verus! {

/// One area loaded whole: header, record size, per-record info words and records.
pub struct LoadedView {
    pub tag: [u8; 4],
    pub format: [u8; 4],
    pub header: Seq<u8>,
    pub size: nat,
    pub stride: nat,
    pub records: Seq<Seq<u8>>,
    pub info: Seq<Seq<u8>>,
}

/// Bytes of info per declared record of a table body.
pub open spec fn stride_of(b: Seq<u8>) -> nat {
    if le32(b, 0) == 0 {
        0
    } else {
        ((data_start(b) - HEADER_LEN) / (le32(b, 0) as int)) as nat
    }
}

/// The info word of record `i`: empty when the table keeps none for it.
pub open spec fn info_at(b: Seq<u8>, i: int) -> Seq<u8> {
    let st = stride_of(b);
    if st == 0 || i >= le32(b, 0) {
        Seq::empty()
    } else {
        b.subrange(HEADER_LEN + i * st, HEADER_LEN + (i + 1) * st)
    }
}

/// Record `i` of a table body.
pub open spec fn record_at(b: Seq<u8>, i: int) -> Seq<u8> {
    b.subrange(data_start(b) + i * le32(b, 4), data_start(b) + (i + 1) * le32(b, 4))
}

/// What area `a` with body `b` loads as.
pub open spec fn loaded(a: Area, b: Seq<u8>) -> LoadedView {
    LoadedView {
        tag: a.tag,
        format: a.format,
        header: b.subrange(0, HEADER_LEN as int),
        size: le32(b, 4) as nat,
        stride: stride_of(b),
        records: Seq::new(whole_records(b), |i: int| record_at(b, i)),
        info: Seq::new(whole_records(b), |i: int| info_at(b, i)),
    }
}

/// Loading area `a` of file `s`, or why it cannot be loaded.
pub open spec fn load(s: Seq<u8>, a: Area) -> Result<LoadedView> {
    if !fits(a, s.len()) {
        Err(beyond(a, s.len() as int))
    } else {
        let b = block(s, a);
        match table_error(a.tag, b) {
            Some(e) => Err(e),
            None => if b.len() < HEADER_LEN {
                Err(Error::HeaderMissing { tag: a.tag })
            } else {
                Ok(loaded(a, b))
            },
        }
    }
}

/// An area held in memory whole.
pub struct LoadedArea {
    pub tag: [u8; 4],
    pub format: [u8; 4],
    pub header: [u8; 16],
    pub record_size: usize,
    pub info_stride: usize,
    pub records: Vec<Vec<u8>>,
    pub info: Vec<Vec<u8>>,
}

impl View for LoadedArea {
    type V = LoadedView;

    open spec fn view(&self) -> LoadedView {
        LoadedView {
            tag: self.tag,
            format: self.format,
            header: self.header@,
            size: self.record_size as nat,
            stride: self.info_stride as nat,
            records: self.records@.map_values(|r: Vec<u8>| r@),
            info: self.info@.map_values(|r: Vec<u8>| r@),
        }
    }
}

impl LoadedArea {
    /// Load area `area` of `raw` whole.
    pub fn load(raw: &Raw, svd: &Svd, area: &Area) -> (r: Result<LoadedArea>)
        ensures
            match load(raw@, *area) {
                Ok(v) => r matches Ok(l) && l@ == v,
                Err(e) => r == Err::<LoadedArea, Error>(e),
            },
    {
        let bytes = svd.area_bytes(raw, area)?;
        let table = RecordTable::parse(area, bytes)?;
        let head = table.header();
        if head.len() < HEADER_LEN {
            return Err(Error::HeaderMissing { tag: area.tag });
        }
        let mut header = [0u8; 16];
        let mut h: usize = 0;
        while h < HEADER_LEN
            invariant
                h <= HEADER_LEN,
                head@.len() == HEADER_LEN,
                forall|j: int| 0 <= j < h ==> header@[j] == head@[j],
            decreases HEADER_LEN - h,
        {
            header[h] = head[h];
            h = h + 1;
        }
        assert(header@ =~= bytes@.subrange(0, HEADER_LEN as int));
        let rows = table.records();
        let n = rows.len();
        let stride = table.info_stride();
        let mut records: Vec<Vec<u8>> = Vec::new();
        let mut info: Vec<Vec<u8>> = Vec::new();
        let mut i: usize = 0;
        while i < n
            invariant
                i <= n,
                table.wf(),
                table.body() == bytes@,
                n == rows@.len() == table.spec_len(),
                forall|j: int| 0 <= j < rows@.len() ==> (#[trigger] rows@[j])@ == table.spec_record(j),
                records@.len() == i,
                info@.len() == i,
                forall|j: int| 0 <= j < i ==> (#[trigger] records@[j])@ == record_at(bytes@, j),
                forall|j: int| 0 <= j < i ==> (#[trigger] info@[j])@ == info_at(bytes@, j),
                table.info_len == data_start(bytes@),
                table.record_size == le32(bytes@, 4),
                table.declared_count == le32(bytes@, 0),
            decreases n - i,
        {
            let row = rows[i];
            records.push(copy_range(row, 0, row.len()));
            match table.record_info(i) {
                Some(w) => {
                    info.push(copy_range(w, 0, w.len()));
                },
                None => {
                    info.push(Vec::new());
                },
            }
            proof {
                assert(records@[i as int]@ =~= record_at(bytes@, i as int));
                assert(info@[i as int]@ =~= info_at(bytes@, i as int));
            }
            i = i + 1;
        }
        let l = LoadedArea {
            tag: area.tag,
            format: area.format,
            header,
            record_size: table.record_size,
            info_stride: stride,
            records,
            info,
        };
        assert(l@.records =~= loaded(*area, bytes@).records);
        assert(l@.info =~= loaded(*area, bytes@).info);
        Ok(l)
    }
}


/// One waveform section of `USDa`: the slot it belongs to (from 0), its directory word, and its
/// bytes, kept whole because their interior is not decoded.
pub type Wave = (u32, u32, Seq<u8>);

/// `USDa`, the area holding sample audio.
pub open spec fn usda() -> Seq<u8> {
    tag4('U', 'S', 'D', 'a')
}

/// `USPa`, the sample slot directory.
pub open spec fn uspa() -> Seq<u8> {
    tag4('U', 'S', 'P', 'a')
}

/// The first `n` waveform sections a `USDa` body's directory lists, or the first bad entry.
pub open spec fn waves_upto(b: Seq<u8>, n: int) -> Result<Seq<Wave>>
    decreases n,
{
    if n <= 0 {
        Ok(Seq::empty())
    } else {
        match waves_upto(b, n - 1) {
            Err(e) => Err(e),
            Ok(ws) => {
                let at = HEADER_LEN + 16 * (n - 1);
                if at + 16 > b.len() {
                    Err(Error::WaveEntryTruncated { index: (n - 1) as usize })
                } else {
                    let off = le32(b, at + 4) as int;
                    let size = le32(b, at + 8) as int;
                    if off + size > b.len() {
                        Err(Error::WaveSectionBeyond { index: (n - 1) as usize })
                    } else {
                        Ok(ws.push((le32(b, at), le32(b, at + 12), b.subrange(off, off + size))))
                    }
                }
            },
        }
    }
}

/// The waveform sections of file `s`: none without a `USDa`.
pub open spec fn read_waves(s: Seq<u8>, areas: Seq<Area>) -> Result<Seq<Wave>> {
    match first_area(areas, usda()) {
        None => Ok(Seq::empty()),
        Some(k) => {
            let a = areas[k];
            if !fits(a, s.len()) {
                Err(beyond(a, s.len() as int))
            } else if block(s, a).len() < 4 {
                Err(Error::AreaTruncated { tag: a.tag, at: 0 })
            } else {
                waves_upto(block(s, a), le32(block(s, a), 0) as int)
            }
        },
    }
}

/// A waveform section held in memory.
pub struct Waveform {
    pub slot: u32,
    pub word: u32,
    pub bytes: Vec<u8>,
}

pub open spec fn waves_view(ws: Seq<Waveform>) -> Seq<Wave> {
    ws.map_values(|w: Waveform| (w.slot, w.word, w.bytes@))
}

proof fn lemma_waves_err(b: Seq<u8>, k: int, n: int)
    requires
        0 <= k <= n,
        waves_upto(b, k) is Err,
    ensures
        waves_upto(b, n) == waves_upto(b, k),
    decreases n - k,
{
    if k < n {
        lemma_waves_err(b, k, n - 1);
    }
}

/// Read every waveform section of `raw`.
pub fn read_waveforms(raw: &Raw, svd: &Svd) -> (r: Result<Vec<Waveform>>)
    ensures
        match read_waves(raw@, svd.areas@) {
            Ok(ws) => r matches Ok(v) && waves_view(v@) == ws,
            Err(e) => r == Err::<Vec<Waveform>, Error>(e),
        },
{
    let tag = tag_of(0x55, 0x53, 0x44, 0x61);
    assert(tag@ =~= usda());
    let area = match svd.area(&tag) {
        None => {
            let v: Vec<Waveform> = Vec::new();
            assert(waves_view(v@) =~= Seq::<Wave>::empty());
            return Ok(v);
        },
        Some(a) => a,
    };
    let bytes = svd.area_bytes(raw, area)?;
    let count = match read_u32(bytes, 0) {
        Some(c) => c,
        None => {
            return Err(Error::AreaTruncated { tag: area.tag, at: 0 });
        },
    };
    let ghost b = bytes@;
    let mut out: Vec<Waveform> = Vec::new();
    assert(waves_view(out@) =~= Seq::<Wave>::empty());
    assert(read_waves(raw@, svd.areas@) == waves_upto(b, count as int));
    let mut index: u32 = 0;
    while index < count
        invariant
            index <= count,
            b == bytes@,
            read_waves(raw@, svd.areas@) == waves_upto(b, count as int),
            waves_upto(b, index as int) == Ok::<Seq<Wave>, Error>(waves_view(out@)),
        decreases count - index,
    {
        let at: u64 = 16 + 16 * index as u64;
        if at + 16 > bytes.len() as u64 {
            proof {
                lemma_waves_err(b, index + 1, count as int);
            }
            return Err(Error::WaveEntryTruncated { index: index as usize });
        }
        let at = at as usize;
        let slot = read_u32(bytes, at).unwrap();
        let offset = read_u32(bytes, at + 4).unwrap();
        let size = read_u32(bytes, at + 8).unwrap();
        let word = read_u32(bytes, at + 12).unwrap();
        if offset as u64 + size as u64 > bytes.len() as u64 {
            proof {
                lemma_waves_err(b, index + 1, count as int);
            }
            return Err(Error::WaveSectionBeyond { index: index as usize });
        }
        let section = copy_range(bytes, offset as usize, offset as usize + size as usize);
        let ghost before = out@;
        out.push(Waveform { slot, word, bytes: section });
        assert(waves_view(out@) =~= waves_view(before).push((slot, word, section@)));
        index = index + 1;
    }
    Ok(out)
}


/// The first of bank rows `0..n` whose area the file has: the engine of a tone bank.
pub open spec fn first_engine(areas: Seq<Area>, n: int) -> Option<int>
    decreases n,
{
    if n <= 0 {
        None
    } else {
        match first_engine(areas, n - 1) {
            Some(i) => Some(i),
            None => if first_area(areas, row_tag(n - 1)) is Some {
                Some(n - 1)
            } else {
                None
            },
        }
    }
}

/// The areas `0..k` of row `i`, loaded.
pub open spec fn family_load(s: Seq<u8>, areas: Seq<Area>, i: int, k: int) -> Result<Seq<LoadedView>>
    decreases k,
{
    if k <= 0 {
        Ok(Seq::empty())
    } else {
        match family_load(s, areas, i, k - 1) {
            Err(e) => Err(e),
            Ok(fs) => {
                let t = row_paired_bytes(i)[k - 1];
                match first_area(areas, t@) {
                    None => Err(Error::PairedMissing { tag: row_tag_bytes(i), paired: t }),
                    Some(j) => match load(s, areas[j]) {
                        Err(e) => Err(e),
                        Ok(v) => Ok(fs.push(v)),
                    },
                }
            },
        }
    }
}

/// Whether area `t` is one a tone bank rebuilds itself rather than carrying over.
pub open spec fn handled(fam: Seq<LoadedView>, t: Seq<u8>) -> bool {
    ||| exists|k: int| 0 <= k < fam.len() && (#[trigger] fam[k]).tag@ == t
    ||| t == uspa()
    ||| t == usda()
}

/// The areas among the first `n` a tone bank carries over unchanged, in table order.
pub open spec fn others(s: Seq<u8>, areas: Seq<Area>, fam: Seq<LoadedView>, n: int) -> Result<
    Seq<Piece>,
>
    decreases n,
{
    if n <= 0 {
        Ok(Seq::empty())
    } else {
        match others(s, areas, fam, n - 1) {
            Err(e) => Err(e),
            Ok(ps) => {
                let a = areas[n - 1];
                if handled(fam, a.tag@) {
                    Ok(ps)
                } else if !fits(a, s.len()) {
                    Err(beyond(a, s.len() as int))
                } else {
                    Ok(ps.push((a.tag@, a.format@, block(s, a))))
                }
            },
        }
    }
}

/// The sample slot directory, loaded when the file has one.
pub open spec fn slots_load(s: Seq<u8>, areas: Seq<Area>) -> Result<Option<LoadedView>> {
    match first_area(areas, uspa()) {
        None => Ok(None),
        Some(j) => match load(s, areas[j]) {
            Err(e) => Err(e),
            Ok(v) => Ok(Some(v)),
        },
    }
}

/// A tone bank as repackaging reads it.
pub struct ToneBankView {
    pub preamble: Seq<u8>,
    /// The bank row of its engine.
    pub row: int,
    /// The engine's areas, its own first.
    pub family: Seq<LoadedView>,
    pub slots: Option<LoadedView>,
    pub waves: Seq<Wave>,
    pub wave_format: [u8; 4],
    pub other: Seq<Piece>,
    /// Area tags in the order the file lays them out.
    pub order: Seq<[u8; 4]>,
}

/// What file `s` with area table `areas` reads as, as a tone bank.
pub open spec fn tone_bank(s: Seq<u8>, areas: Seq<Area>) -> Result<ToneBankView> {
    if kind_of(s) != Some(Kind::Svz) {
        Err(Error::NotAToneBank)
    } else {
        match first_engine(areas, AREA_COUNT as int) {
            None => Err(Error::NoToneArea),
            Some(i) => match family_load(s, areas, i, row_paired(i).len() as int) {
                Err(e) => Err(e),
                Ok(fam) => if fam.len() > 1 && fam[1].records.len() != fam[0].records.len() {
                    Err(Error::PairedCountsDiffer { tag: row_tag_bytes(i) })
                } else {
                    match slots_load(s, areas) {
                        Err(e) => Err(e),
                        Ok(slots) => match read_waves(s, areas) {
                            Err(e) => Err(e),
                            Ok(ws) => match others(s, areas, fam, areas.len() as int) {
                                Err(e) => Err(e),
                                Ok(other) => Ok(
                                    ToneBankView {
                                        preamble: s.subrange(0, PREAMBLE_LEN as int),
                                        row: i,
                                        family: fam,
                                        slots,
                                        waves: ws,
                                        wave_format: match first_area(areas, usda()) {
                                            Some(j) => areas[j].format,
                                            None => fam[0].format,
                                        },
                                        other,
                                        order: areas.map_values(|a: Area| a.tag),
                                    },
                                ),
                            },
                        },
                    }
                },
            },
        }
    }
}

/// An area carried over unchanged: tag, format stamp and body.
pub type AreaOut = ([u8; 4], [u8; 4], Vec<u8>);

pub open spec fn pieces_view(ps: Seq<AreaOut>) -> Seq<Piece> {
    ps.map_values(|p: AreaOut| (p.0@, p.1@, p.2@))
}

/// A parsed SVZ tone bank.
pub struct ToneBank {
    pub preamble: [u8; 16],
    pub row: usize,
    pub family: Vec<LoadedArea>,
    pub slots: Option<LoadedArea>,
    pub waveforms: Vec<Waveform>,
    pub waveform_format: [u8; 4],
    pub other: Vec<AreaOut>,
    pub order: Vec<[u8; 4]>,
}

impl View for ToneBank {
    type V = ToneBankView;

    open spec fn view(&self) -> ToneBankView {
        ToneBankView {
            preamble: self.preamble@,
            row: self.row as int,
            family: self.family@.map_values(|a: LoadedArea| a@),
            slots: match self.slots {
                Some(a) => Some(a@),
                None => None,
            },
            waves: waves_view(self.waveforms@),
            wave_format: self.waveform_format,
            other: pieces_view(self.other@),
            order: self.order@,
        }
    }
}

proof fn lemma_family_err(s: Seq<u8>, areas: Seq<Area>, i: int, k: int, n: int)
    requires
        0 <= k <= n,
        family_load(s, areas, i, k) is Err,
    ensures
        family_load(s, areas, i, n) == family_load(s, areas, i, k),
    decreases n - k,
{
    if k < n {
        lemma_family_err(s, areas, i, k, n - 1);
    }
}

proof fn lemma_others_err(s: Seq<u8>, areas: Seq<Area>, fam: Seq<LoadedView>, k: int, n: int)
    requires
        0 <= k <= n,
        others(s, areas, fam, k) is Err,
    ensures
        others(s, areas, fam, n) == others(s, areas, fam, k),
    decreases n - k,
{
    if k < n {
        lemma_others_err(s, areas, fam, k, n - 1);
    }
}

proof fn lemma_first_engine(areas: Seq<Area>, k: int, n: int)
    requires
        0 <= k <= n,
        first_engine(areas, k) is Some,
    ensures
        first_engine(areas, n) == first_engine(areas, k),
    decreases n - k,
{
    if k < n {
        lemma_first_engine(areas, k, n - 1);
    }
}

fn is_handled(family: &Vec<LoadedArea>, tag: &[u8; 4]) -> (r: bool)
    ensures
        r == handled(family@.map_values(|a: LoadedArea| a@), tag@),
{
    let ghost fam = family@.map_values(|a: LoadedArea| a@);
    let mut k: usize = 0;
    while k < family.len()
        invariant
            k <= family@.len(),
            fam == family@.map_values(|a: LoadedArea| a@),
            forall|j: int| 0 <= j < k ==> fam[j].tag@ != tag@,
        decreases family@.len() - k,
    {
        assert(fam[k as int].tag == family@[k as int].tag);
        if same_tag(&family[k].tag, tag) {
            return true;
        }
        k = k + 1;
    }
    let usp = tag_of(0x55, 0x53, 0x50, 0x61);
    let usd = tag_of(0x55, 0x53, 0x44, 0x61);
    assert(usp@ =~= uspa());
    assert(usd@ =~= usda());
    same_tag(tag, &usp) || same_tag(tag, &usd)
}

/// The bank row of the engine a tone bank is built around.
fn find_engine(svd: &Svd) -> (r: Option<usize>)
    ensures
        r matches Some(x) ==> x < AREA_COUNT && first_engine(svd.areas@, AREA_COUNT as int) == Some(
            x as int,
        ),
        match first_engine(svd.areas@, AREA_COUNT as int) {
            Some(i) => r == Some(i as usize) && i < AREA_COUNT,
            None => r is None,
        },
{
    let mut row: usize = 0;
    while row < AREA_COUNT
        invariant
            row <= AREA_COUNT,
            first_engine(svd.areas@, row as int) is None,
        decreases AREA_COUNT - row,
    {
        let spec_row = area_at(row);
        proof {
            lemma_row_bytes(spec_row, row as int);
        }
        if svd.area(&spec_row.tag).is_some() {
            proof {
                lemma_first_engine(svd.areas@, row + 1, AREA_COUNT as int);
            }
            return Some(row);
        }
        row = row + 1;
    }
    None
}

/// Load the areas of engine row `row`, its own first.
fn load_family(raw: &Raw, svd: &Svd, row: usize) -> (r: Result<Vec<LoadedArea>>)
    requires
        row < AREA_COUNT,
    ensures
        match family_load(raw@, svd.areas@, row as int, row_paired(row as int).len() as int) {
            Ok(fs) => r matches Ok(v) && v@.map_values(|a: LoadedArea| a@) == fs,
            Err(e) => r == Err::<Vec<LoadedArea>, Error>(e),
        },
{
    let spec_row = area_at(row);
    proof {
        lemma_row_bytes(spec_row, row as int);
    }
    let tags = spec_row.paired();
    assert(tags@ =~= row_paired_bytes(row as int));
    let mut family: Vec<LoadedArea> = Vec::new();
    assert(family@.map_values(|a: LoadedArea| a@) =~= Seq::<LoadedView>::empty());
    let mut k: usize = 0;
    while k < tags.len()
        invariant
            k <= tags@.len(),
            row < AREA_COUNT,
            spec_row.tag == row_tag_bytes(row as int),
            tags@ == row_paired_bytes(row as int),
            tags@.len() == row_paired(row as int).len(),
            family_load(raw@, svd.areas@, row as int, k as int) == Ok::<Seq<LoadedView>, Error>(
                family@.map_values(|a: LoadedArea| a@),
            ),
        decreases tags@.len() - k,
    {
        let t = tags[k];
        let area = match svd.area(&t) {
            Some(a) => a,
            None => {
                proof {
                    lemma_family_err(raw@, svd.areas@, row as int, k + 1, tags@.len() as int);
                }
                return Err(Error::PairedMissing { tag: spec_row.tag, paired: t });
            },
        };
        match LoadedArea::load(raw, svd, area) {
            Ok(l) => {
                let ghost before = family@.map_values(|a: LoadedArea| a@);
                family.push(l);
                assert(family@.map_values(|a: LoadedArea| a@) =~= before.push(l@));
            },
            Err(e) => {
                proof {
                    lemma_family_err(raw@, svd.areas@, row as int, k + 1, tags@.len() as int);
                }
                return Err(e);
            },
        }
        k = k + 1;
    }
    Ok(family)
}

/// The areas carried over unchanged, and the tags of every area in file order.
fn carried(raw: &Raw, svd: &Svd, family: &Vec<LoadedArea>) -> (r: Result<
    (Vec<AreaOut>, Vec<[u8; 4]>),
>)
    ensures
        match others(raw@, svd.areas@, family@.map_values(|a: LoadedArea| a@), svd.areas@.len() as int) {
            Ok(ps) => r matches Ok((o, t)) && pieces_view(o@) == ps && t@ == svd.areas@.map_values(
                |a: Area| a.tag,
            ),
            Err(e) => r == Err::<(Vec<AreaOut>, Vec<[u8; 4]>), Error>(e),
        },
{
    let ghost fam = family@.map_values(|a: LoadedArea| a@);
    let mut other: Vec<AreaOut> = Vec::new();
    let mut order: Vec<[u8; 4]> = Vec::new();
    let mut j: usize = 0;
    assert(pieces_view(other@) =~= Seq::<Piece>::empty());
    while j < svd.areas.len()
        invariant
            j <= svd.areas@.len(),
            fam == family@.map_values(|a: LoadedArea| a@),
            others(raw@, svd.areas@, fam, j as int) == Ok::<Seq<Piece>, Error>(pieces_view(other@)),
            order@ == svd.areas@.subrange(0, j as int).map_values(|a: Area| a.tag),
        decreases svd.areas@.len() - j,
    {
        let area = &svd.areas[j];
        if !is_handled(family, &area.tag) {
            let bytes = match svd.area_bytes(raw, area) {
                Ok(b) => b,
                Err(e) => {
                    proof {
                        lemma_others_err(raw@, svd.areas@, fam, j + 1, svd.areas@.len() as int);
                    }
                    return Err(e);
                },
            };
            let ghost before = pieces_view(other@);
            let body = copy_range(bytes, 0, bytes.len());
            assert(body@ =~= bytes@);
            other.push((area.tag, area.format, body));
            assert(pieces_view(other@) =~= before.push((area.tag@, area.format@, block(raw@, *area))));
        }
        order.push(area.tag);
        j = j + 1;
        assert(order@ =~= svd.areas@.subrange(0, j as int).map_values(|a: Area| a.tag));
    }
    assert(svd.areas@.subrange(0, j as int) =~= svd.areas@);
    Ok((other, order))
}

impl ToneBank {
    /// Read an SVZ tone bank.
    pub fn parse(raw: &Raw) -> (r: Result<ToneBank>)
        ensures
            envelope_error(raw@) is Some ==> r is Err,
            r matches Ok(b) ==> bank_wf(b@),
            forall|svd: Svd| #[trigger]
                parses_as(svd, raw@) ==> match tone_bank(raw@, svd.areas@) {
                    Ok(v) => r matches Ok(b) && b@ == v,
                    Err(e) => r == Err::<ToneBank, Error>(e),
                },
    {
        let svd = Svd::parse(raw)?;
        proof {
            assert forall|other: Svd| #[trigger] parses_as(other, raw@) implies other.areas@
                == svd.areas@ by {
                crate::diff::lemma_areas_unique(other, svd, raw@);
            }
        }
        if !matches!(svd.kind, Kind::Svz) {
            return Err(Error::NotAToneBank);
        }
        let pre = svd.preamble(raw)?;
        let mut preamble = [0u8; 16];
        let mut h: usize = 0;
        while h < PREAMBLE_LEN
            invariant
                h <= PREAMBLE_LEN,
                pre@.len() == PREAMBLE_LEN,
                forall|j: int| 0 <= j < h ==> preamble@[j] == pre@[j],
            decreases PREAMBLE_LEN - h,
        {
            preamble[h] = pre[h];
            h = h + 1;
        }
        assert(preamble@ =~= raw@.subrange(0, PREAMBLE_LEN as int));
        // The engine area decides everything else; a tone bank holds exactly one.
        let row = match find_engine(&svd) {
            Some(r) => r,
            None => {
                return Err(Error::NoToneArea);
            },
        };
        let family = load_family(raw, &svd, row)?;
        let ghost fam = family@.map_values(|a: LoadedArea| a@);
        assert(fam.len() == family@.len());
        let spec_row = area_at(row);
        proof {
            lemma_row_bytes(spec_row, row as int);
        }
        if family.len() > 1 && family[1].records.len() != family[0].records.len() {
            assert(fam[1].records.len() != fam[0].records.len());
            return Err(Error::PairedCountsDiffer { tag: spec_row.tag });
        }
        let usp = tag_of(0x55, 0x53, 0x50, 0x61);
        assert(usp@ =~= uspa());
        let slots = match svd.area(&usp) {
            Some(area) => Some(LoadedArea::load(raw, &svd, area)?),
            None => None,
        };
        let waveforms = read_waveforms(raw, &svd)?;
        let usd = tag_of(0x55, 0x53, 0x44, 0x61);
        assert(usd@ =~= usda());
        assert(fam.len() >= 1);
        let waveform_format = match svd.area(&usd) {
            Some(area) => area.format,
            None => family[0].format,
        };
        // Anything else (DIFa) travels untouched.
        let (other, order) = carried(raw, &svd, &family)?;
        let bank = ToneBank {
            preamble,
            row,
            family,
            slots,
            waveforms,
            waveform_format,
            other,
            order,
        };
        proof {
            lemma_tone_bank_wf(raw@, svd.areas@);
        }
        Ok(bank)
    }
}


/// Whether a loaded area keeps one info word per record.
pub open spec fn loaded_wf(l: LoadedView) -> bool {
    l.info.len() == l.records.len()
}

/// Whether a tone bank is as parsing leaves it: one or two engine areas holding as many records
/// each, every area with an info word per record.
pub open spec fn bank_wf(b: ToneBankView) -> bool {
    &&& 1 <= b.family.len() <= 2
    &&& 0 <= b.row < AREA_COUNT
    &&& b.family.len() == row_paired(b.row).len()
    &&& forall|p: int|
        0 <= p < b.family.len() ==> loaded_wf(#[trigger] b.family[p]) && b.family[p].records.len()
            == b.family[0].records.len()
    &&& b.slots matches Some(l) ==> loaded_wf(l)
}

proof fn lemma_load_wf(s: Seq<u8>, a: Area)
    ensures
        load(s, a) matches Ok(v) ==> loaded_wf(v),
{
}

proof fn lemma_family_wf(s: Seq<u8>, areas: Seq<Area>, i: int, k: int)
    requires
        k >= 0,
    ensures
        family_load(s, areas, i, k) matches Ok(fs) ==> fs.len() == k && forall|p: int|
            0 <= p < k ==> loaded_wf(#[trigger] fs[p]),
    decreases k,
{
    if k > 0 {
        lemma_family_wf(s, areas, i, k - 1);
        if let Ok(fs) = family_load(s, areas, i, k) {
            let prev = family_load(s, areas, i, k - 1)->Ok_0;
            let t = row_paired_bytes(i)[k - 1];
            let j = first_area(areas, t@)->Some_0;
            lemma_load_wf(s, areas[j]);
            assert forall|p: int| 0 <= p < k implies loaded_wf(#[trigger] fs[p]) by {
                if p < k - 1 {
                    assert(fs[p] == prev[p]);
                }
            }
        }
    }
}

/// The bank a tone bank parse gives is well formed.
pub proof fn lemma_tone_bank_wf(s: Seq<u8>, areas: Seq<Area>)
    ensures
        tone_bank(s, areas) matches Ok(b) ==> bank_wf(b),
{
    if let Ok(b) = tone_bank(s, areas) {
        lemma_first_engine_range(areas, AREA_COUNT as int);
        lemma_family_wf(s, areas, b.row, row_paired(b.row).len() as int);
        if let Some(j) = first_area(areas, uspa()) {
            lemma_load_wf(s, areas[j]);
        }
    }
}

proof fn lemma_first_engine_range(areas: Seq<Area>, n: int)
    ensures
        first_engine(areas, n) matches Some(i) ==> 0 <= i < n,
    decreases n,
{
    if n > 0 {
        lemma_first_engine_range(areas, n - 1);
    }
}

} // verus!
