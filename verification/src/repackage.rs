//! Extract and merge scenes from FANTOM SVD files, and repoint the samples their tones play.
//!
//! A scene's user sounds live in engine areas alongside it — `PATa` for ZEN-Core tones, `RHYa`
//! plus `INSa` for drum kits, `ACBa`/`DCWa`/`MDLa` for the modelled engines, and so on.
//! Repackaging copies the records the chosen scenes actually reference, de-duplicates them,
//! renumbers them densely, and rewrites each zone's address to match. Factory ROM references are
//! left untouched: they name sounds inside the instrument, so they travel by themselves.

use std::collections::BTreeMap;

pub mod bank;
pub mod canary;
pub mod rebuild;

pub use self::canary::canary_scene;
use self::bank::{bank_parse, bank_wf, BankView, ExportBank};
use self::rebuild::{banks_view, picks_view, rebuild, rebuild_outcome};

use vstd::prelude::*;

use crate::address::tag4;
use crate::bytes::tag_of;
use crate::container::records::{table_error, whole_records};
use crate::container::slots::{ascending, insert_sorted};
use crate::container::svd::{envelope_error, first_area, fits, lemma_first_area, parses_as};
use crate::container::records::data_start;
use crate::container::{
    record_slots, remap_sample_slots_of, remapped, sample_slots_of, Area, Kind, Raw, RecordTable, Svd,
};
use crate::bytes::le32;
use crate::diff::{beyond, block, record_of};
use crate::verify::{info_stride, vouch, vouched};
use crate::{Error, Result};

verus! {

broadcast use vstd::laws_cmp::group_laws_cmp;

/// User sample slots the panel offers, numbered from 1.
pub const PANEL_SLOTS: u16 = 8000;

/// The table the area tagged `tag` of file `s` holds: none when the file has no such area, the
/// error when the area leaves the file or is not a record table.
pub open spec fn table_in(s: Seq<u8>, areas: Seq<Area>, tag: Seq<u8>) -> Result<Option<Seq<u8>>> {
    match first_area(areas, tag) {
        None => Ok(None),
        Some(i) => {
            let a = areas[i];
            if !fits(a, s.len()) {
                Err(beyond(a, s.len() as int))
            } else {
                match table_error(a.tag, block(s, a)) {
                    Some(e) => Err(e),
                    None => Ok(Some(block(s, a))),
                }
            }
        },
    }
}

/// The areas of a scene bank whose records name user samples: ZEN-Core tones, and the
/// instrument sets of the drum kits bundled beside them.
pub open spec fn sample_ref_areas() -> Seq<Seq<u8>> {
    seq![tag4('P', 'A', 'T', 'a'), tag4('I', 'N', 'S', 'a')]
}

/// The sample slots the records of a table body of area `tag` play.
pub open spec fn slots_in(tag: Seq<u8>, table: Option<Seq<u8>>) -> Set<u16> {
    match table {
        Some(b) => Set::new(
            |x: u16|
                exists|k: int|
                    0 <= k < whole_records(b) && #[trigger] record_slots(tag, record_of(b, k)).contains(
                        x,
                    ),
        ),
        None => Set::empty(),
    }
}

/// Every user sample slot the bundled sounds of file `s` play, or the first error reading them.
pub open spec fn referenced_slots(s: Seq<u8>, areas: Seq<Area>) -> Result<Set<u16>> {
    match table_in(s, areas, sample_ref_areas()[0]) {
        Err(e) => Err(e),
        Ok(pat) => match table_in(s, areas, sample_ref_areas()[1]) {
            Err(e) => Err(e),
            Ok(ins) => Ok(
                slots_in(sample_ref_areas()[0], pat).union(slots_in(sample_ref_areas()[1], ins)),
            ),
        },
    }
}

pub(crate) fn table_of<'a>(raw: &'a Raw, svd: &Svd, tag: &[u8; 4]) -> (r: Result<Option<RecordTable<'a>>>)
    requires
        parses_as(*svd, raw@),
    ensures
        match table_in(raw@, svd.areas@, tag@) {
            Err(e) => r == Err::<Option<RecordTable>, Error>(e),
            Ok(None) => r matches Ok(None),
            Ok(Some(b)) => r matches Ok(Some(t)) && t.wf() && t.body() == b && t.tag@ == tag@
                && t.area_offset + b.len() <= raw@.len() && t.area_offset == svd.areas@[first_area(
                svd.areas@,
                tag@,
            )->Some_0].offset,
        },
{
    proof {
        lemma_first_area(svd.areas@, tag@);
    }
    let r = RecordTable::from_svd(raw, svd, tag);
    proof {
        if let Some(i) = first_area(svd.areas@, tag@) {
            let a = svd.areas@[i];
            assert(a.tag@ == tag@);
            if r is Ok && r->Ok_0 is Some {
                assert(r->Ok_0->Some_0.reads(a, block(raw@, a)));
            }
        }
    }
    r
}

/// Add every slot the records of `table` play to the ascending `slots`.
fn collect_slots(table: &RecordTable, tag: &[u8; 4], slots: &mut Vec<u16>)
    requires
        table.wf(),
        ascending(old(slots)@),
    ensures
        ascending(final(slots)@),
        final(slots)@.to_set() == old(slots)@.to_set().union(slots_in(tag@, Some(table.body()))),
{
    let records = table.records();
    let mut k: usize = 0;
    let ghost start = slots@.to_set();
    while k < records.len()
        invariant
            table.wf(),
            records@.len() == table.spec_len(),
            forall|i: int| 0 <= i < records@.len() ==> (#[trigger] records@[i])@ == table.spec_record(i),
            k <= records@.len(),
            ascending(slots@),
            slots@.to_set() == start.union(
                Set::new(
                    |x: u16|
                        exists|j: int|
                            0 <= j < k && #[trigger] record_slots(tag@, record_of(table.body(), j)).contains(x),
                ),
            ),
        decreases records@.len() - k,
    {
        let found = sample_slots_of(tag, records[k]);
        let ghost before = slots@.to_set();
        proof {
            assert(records@[k as int]@ == record_of(table.body(), k as int));
        }
        let mut i: usize = 0;
        while i < found.len()
            invariant
                i <= found@.len(),
                ascending(slots@),
                slots@.to_set() == before.union(found@.subrange(0, i as int).to_set()),
            decreases found@.len() - i,
        {
            let ghost prev = slots@.to_set();
            insert_sorted(slots, found[i]);
            proof {
                assert(found@.subrange(0, i + 1).to_set() =~= found@.subrange(0, i as int).to_set().insert(found@[i as int])) by {
                    assert forall|y: u16| found@.subrange(0, i + 1).to_set().contains(y) <==> found@.subrange(0, i as int).to_set().insert(found@[i as int]).contains(y) by {
                        if found@.subrange(0, i + 1).contains(y) {
                            let j = choose|j: int| 0 <= j < i + 1 && #[trigger] found@.subrange(0, i + 1)[j] == y;
                            if j < i {
                                assert(found@.subrange(0, i as int)[j] == y);
                            }
                        }
                        if found@.subrange(0, i as int).contains(y) {
                            let j = choose|j: int| 0 <= j < i && #[trigger] found@.subrange(0, i as int)[j] == y;
                            assert(found@.subrange(0, i + 1)[j] == y);
                        }
                        if y == found@[i as int] {
                            assert(found@.subrange(0, i + 1)[i as int] == y);
                        }
                    }
                }
                assert(slots@.to_set() =~= before.union(found@.subrange(0, i + 1).to_set()));
            }
            i = i + 1;
        }
        proof {
            assert(found@.subrange(0, found@.len() as int) =~= found@);
            let next = Set::new(
                |x: u16|
                    exists|j: int|
                        0 <= j < k + 1 && #[trigger] record_slots(tag@, record_of(table.body(), j)).contains(x),
            );
            let prev_set = Set::new(
                |x: u16|
                    exists|j: int|
                        0 <= j < k && #[trigger] record_slots(tag@, record_of(table.body(), j)).contains(x),
            );
            assert forall|y: u16| next.contains(y) <==> prev_set.union(found@.to_set()).contains(y) by {
                if next.contains(y) {
                    let j = choose|j: int| 0 <= j < k + 1 && #[trigger] record_slots(tag@, record_of(table.body(), j)).contains(y);
                    if j == k {
                        assert(found@.to_set().contains(y));
                    }
                }
                if found@.to_set().contains(y) {
                    assert(record_slots(tag@, record_of(table.body(), k as int)).contains(y));
                }
            }
            assert(slots@.to_set() =~= start.union(next));
        }
        k = k + 1;
    }
    proof {
        let all = Set::new(
            |x: u16|
                exists|j: int|
                    0 <= j < records@.len() && #[trigger] record_slots(tag@, record_of(table.body(), j)).contains(x),
        );
        assert(all =~= slots_in(tag@, Some(table.body())));
    }
}

/// The user-sample slots this bank's bundled sounds play: 1-based, ascending, each once.
///
/// These are panel slot numbers, and they are what makes a sampled scene bank incomplete
/// elsewhere: the destination has to hold this audio at these numbers.
pub fn referenced_sample_slots(raw: &Raw) -> (r: Result<Vec<u16>>)
    ensures
        envelope_error(raw@) is Some ==> r is Err,
        forall|svd: Svd| #[trigger] parses_as(svd, raw@) ==> match referenced_slots(raw@, svd.areas@) {
            Ok(set) => r matches Ok(v) && ascending(v@) && v@.to_set() == set,
            Err(e) => r == Err::<Vec<u16>, Error>(e),
        },
{
    let svd = Svd::parse(raw)?;
    proof {
        assert forall|other: Svd| #[trigger] parses_as(other, raw@) implies other.areas@ == svd.areas@ by {
            crate::diff::lemma_areas_unique(other, svd, raw@);
        }
    }
    let mut slots: Vec<u16> = Vec::new();
    let pat = tag_of(0x50, 0x41, 0x54, 0x61);
    let ins = tag_of(0x49, 0x4e, 0x53, 0x61);
    assert(pat@ =~= sample_ref_areas()[0]);
    assert(ins@ =~= sample_ref_areas()[1]);
    let pat_table = table_of(raw, &svd, &pat)?;
    let ins_table = table_of(raw, &svd, &ins)?;
    assert(slots@.to_set() =~= Set::<u16>::empty());
    match &pat_table {
        Some(t) => collect_slots(t, &pat, &mut slots),
        None => {},
    }
    match &ins_table {
        Some(t) => collect_slots(t, &ins, &mut slots),
        None => {},
    }
    proof {
        let ghost ps = slots_in(sample_ref_areas()[0], table_in(raw@, svd.areas@, sample_ref_areas()[0])->Ok_0);
        let ghost is = slots_in(sample_ref_areas()[1], table_in(raw@, svd.areas@, sample_ref_areas()[1])->Ok_0);
        assert(slots@.to_set() =~= ps.union(is));
    }
    Ok(slots)
}

/// The map that numbers the first `n` of `slots` from `base` on, in the order given; a slot
/// listed twice takes its later number.
pub open spec fn run_map(slots: Seq<u16>, base: int, n: int) -> Map<u16, u16>
    decreases n,
{
    if n <= 0 {
        Map::empty()
    } else {
        run_map(slots, base, n - 1).insert(slots[n - 1], (base + n - 1) as u16)
    }
}

/// The last slot a run of `count` samples from `base` reaches.
pub open spec fn run_end(base: u16, count: nat) -> int {
    base + (if count == 0 { 0 } else { count - 1 })
}

/// Map each slot in `slots` onto a contiguous run starting at `base`, in the order given.
///
/// This is the mapping a companion sample file implies: it numbers its samples densely, the
/// instrument imports them as one run from whichever slot the user picks, so the *n*th slot this
/// bank referenced becomes `base + n`.
///
/// The run has to land inside the panel's `1..=8000` slots. A base of 0 is not merely off by one:
/// a wave number of zero means *no wave*, so it would silence the partials it was meant to fix.
pub fn contiguous_remap(slots: &[u16], base: u16) -> (r: Result<BTreeMap<u16, u16>>)
    requires
        slots@.len() + 0xffff <= usize::MAX,
    ensures
        base == 0 ==> r == Err::<BTreeMap<u16, u16>, Error>(Error::SlotZero),
        base != 0 && run_end(base, slots@.len()) > PANEL_SLOTS ==> r == Err::<BTreeMap<u16, u16>, Error>(
            Error::SampleRunTooLong {
                count: slots@.len() as usize,
                base,
                last: run_end(base, slots@.len()) as usize,
            },
        ),
        base != 0 && run_end(base, slots@.len()) <= PANEL_SLOTS ==> (r matches Ok(m) && m@
            == run_map(slots@, base as int, slots@.len() as int)),
{
    if base == 0 {
        return Err(Error::SlotZero);
    }
    let n = slots.len();
    if n > PANEL_SLOTS as usize || base as usize + (if n == 0 { 0 } else { n - 1 }) > PANEL_SLOTS as usize {
        let last = base as usize + (if n == 0 { 0 } else { n - 1 });
        return Err(Error::SampleRunTooLong { count: n, base, last });
    }
    let mut map: BTreeMap<u16, u16> = BTreeMap::new();
    let mut i: usize = 0;
    while i < n
        invariant
            n == slots@.len(),
            base as int + (if n == 0 { 0 } else { n - 1 }) <= PANEL_SLOTS,
            i <= n,
            map@ == run_map(slots@, base as int, i as int),
        decreases n - i,
    {
        map.insert(slots[i], base + i as u16);
        i = i + 1;
    }
    Ok(map)
}

/// Whether `new` is `old` with the `n` records of `rs` bytes from `start` each rewritten through
/// `m` as records of area `tag`, and nothing else changed.
pub open spec fn records_rewritten(
    old: Seq<u8>,
    new: Seq<u8>,
    start: int,
    rs: int,
    n: int,
    tag: Seq<u8>,
    m: Map<u16, u16>,
) -> bool {
    &&& new.len() == old.len()
    &&& forall|k: int|
        0 <= k < n ==> #[trigger] remapped(
            tag,
            old.subrange(start + k * rs, start + k * rs + rs),
            new.subrange(start + k * rs, start + k * rs + rs),
            m,
        )
    &&& forall|i: int| 0 <= i < old.len() && !(start <= i < start + n * rs) ==> new[i] == old[i]
}

/// Whether `new` is `old` with the records of file `s`'s area `tag` rewritten through `m`, or
/// unchanged when the file has no such table.
pub open spec fn rebase_step(
    s: Seq<u8>,
    areas: Seq<Area>,
    tag: Seq<u8>,
    old: Seq<u8>,
    new: Seq<u8>,
    m: Map<u16, u16>,
) -> bool {
    match table_in(s, areas, tag) {
        Ok(Some(b)) => records_rewritten(
            old,
            new,
            areas[first_area(areas, tag)->Some_0].offset + data_start(b),
            le32(b, 4) as int,
            whole_records(b) as int,
            tag,
            m,
        ),
        _ => new == old,
    }
}

/// Why the tone sample references of file `s` cannot be rewritten in place, if they cannot.
pub open spec fn rebase_error(s: Seq<u8>, areas: Seq<Area>) -> Option<Error> {
    match table_in(s, areas, sample_ref_areas()[0]) {
        Err(e) => Some(e),
        Ok(pat) => if pat matches Some(b) && info_stride(b) != 0 {
            Some(Error::Checksummed { tag: [0x50u8, 0x41, 0x54, 0x61] })
        } else {
            None
        },
    }
}

/// Two rewrites of the same records of `old` through the same map agree.
proof fn lemma_rewritten_same(
    old: Seq<u8>,
    n1: Seq<u8>,
    n2: Seq<u8>,
    start: int,
    rs: int,
    n: int,
    tag: Seq<u8>,
    m: Map<u16, u16>,
)
    requires
        records_rewritten(old, n1, start, rs, n, tag, m),
        records_rewritten(old, n2, start, rs, n, tag, m),
        rs > 0,
        start >= 0,
        n >= 0,
        n == 0 || start + n * rs <= old.len(),
    ensures
        n1 == n2,
{
    assert forall|i: int| 0 <= i < old.len() implies n1[i] == n2[i] by {
        if start <= i < start + n * rs {
            let k = (i - start) / rs;
            let j = (i - start) % rs;
            assert(0 <= k < n && start + k * rs + j == i && 0 <= j < rs) by (nonlinear_arith)
                requires
                    start <= i < start + n * rs,
                    rs > 0,
                    k == (i - start) / rs,
                    j == (i - start) % rs,
            ;
            assert(start + k * rs + rs <= old.len()) by (nonlinear_arith)
                requires
                    0 <= k < n,
                    rs > 0,
                    start + n * rs <= old.len(),
            ;
            let lo = start + k * rs;
            assert(remapped(tag, old.subrange(lo, lo + rs), n1.subrange(lo, lo + rs), m));
            assert(remapped(tag, old.subrange(lo, lo + rs), n2.subrange(lo, lo + rs), m));
            crate::container::lemma_remapped_same(
                tag,
                old.subrange(lo, lo + rs),
                n1.subrange(lo, lo + rs),
                n2.subrange(lo, lo + rs),
                m,
            );
            assert(n1[i] == n1.subrange(lo, lo + rs)[j]);
            assert(n2[i] == n2.subrange(lo, lo + rs)[j]);
        }
    }
    assert(n1 =~= n2);
}

/// Rewriting the records of one area of file `s` through one map has a single outcome.
pub proof fn law_rebase_step_unique(
    s: Seq<u8>,
    areas: Seq<Area>,
    tag: Seq<u8>,
    old: Seq<u8>,
    n1: Seq<u8>,
    n2: Seq<u8>,
    m: Map<u16, u16>,
)
    requires
        old.len() == s.len(),
        rebase_step(s, areas, tag, old, n1, m),
        rebase_step(s, areas, tag, old, n2, m),
    ensures
        n1 == n2,
{
    if let Ok(Some(b)) = table_in(s, areas, tag) {
        lemma_first_area(areas, tag);
        let a = areas[first_area(areas, tag)->Some_0];
        let rs = le32(b, 4) as int;
        let ds = data_start(b) as int;
        let body = if b.len() >= ds { b.len() - ds } else { 0 };
        let n = whole_records(b) as int;
        assert(n <= body / rs);
        assert(n * rs <= body) by (nonlinear_arith)
            requires
                0 <= n <= body / rs,
                rs > 0,
                body >= 0,
        ;
        if b.len() < ds {
            assert(n == 0) by (nonlinear_arith)
                requires
                    0 <= n <= body / rs,
                    rs > 0,
                    body == 0,
            ;
        }
        assert(b == block(s, a) && fits(a, s.len()));
        assert(b.len() == a.size);
        if b.len() >= ds {
            assert(a.offset + ds + n * rs <= a.offset + b.len());
        }
        lemma_rewritten_same(old, n1, n2, a.offset + ds, rs, n, tag, m);
    }
}


fn rewrite_records(bytes: &mut Vec<u8>, table: &RecordTable, tag: &[u8; 4], remap: &BTreeMap<u16, u16>)
    requires
        table.wf(),
        table.area_offset + table.body().len() <= old(bytes)@.len(),
    ensures
        records_rewritten(
            old(bytes)@,
            final(bytes)@,
            table.area_offset + table.info_len,
            table.record_size as int,
            table.spec_len() as int,
            tag@,
            remap@,
        ),
{
    let n = table.len();
    let rs = table.record_size;
    if n == 0 {
        return;
    }
    proof {
        crate::container::records::lemma_record_fits(
            table.body().len() as int,
            table.info_len as int,
            rs as int,
            n as int,
            n - 1,
        );
    }
    assert(table.info_len <= table.body().len());
    let ghost before = bytes@;
    assert(before.len() == bytes.len());
    let start = table.area_offset + table.info_len;
    let mut k: usize = 0;
    while k < n
        invariant
            table.wf(),
            n == table.spec_len(),
            n > 0,
            rs == table.record_size,
            start == table.area_offset + table.info_len,
            start + n * rs <= before.len(),
            before.len() <= usize::MAX,
            bytes@.len() == before.len(),
            k <= n,
            forall|j: int|
                0 <= j < k ==> #[trigger] remapped(
                    tag@,
                    before.subrange(start + j * rs, start + j * rs + rs),
                    bytes@.subrange(start + j * rs, start + j * rs + rs),
                    remap@,
                ),
            forall|i: int| 0 <= i < before.len() && !(start <= i < start + k * rs) ==> bytes@[i] == before[i],
        decreases n - k,
    {
        assert(start + k * rs + rs <= start + n * rs) by (nonlinear_arith)
            requires
                k < n,
        ;
        assert(0 <= k * rs) by (nonlinear_arith)
            requires
                0 <= k,
                0 < rs,
        ;
        let at = start + k * rs;
        let mut rec = crate::bytes::copy_range(bytes.as_slice(), at, at + rs);
        assert(rec@ =~= before.subrange(at as int, at + rs)) by {
            assert forall|i: int| 0 <= i < rs implies rec@[i] == before[at + i] by {
                assert(!(start <= at + i < start + k * rs));
            }
        }
        remap_sample_slots_of(tag, rec.as_mut_slice(), remap);
        let ghost mid = bytes@;
        let mut j: usize = 0;
        while j < rs
            invariant
                at + rs <= before.len(),
                before.len() <= usize::MAX,
                mid.len() == before.len(),
                rec@.len() == rs,
                bytes@.len() == before.len(),
                j <= rs,
                forall|i: int| 0 <= i < j ==> bytes@[at + i] == rec@[i],
                forall|i: int| 0 <= i < before.len() && !(at <= i < at + j) ==> bytes@[i] == mid[i],
            decreases rs - j,
        {
            bytes.set(at + j, rec[j]);
            j = j + 1;
        }
        proof {
            assert(bytes@.subrange(at as int, at + rs) =~= rec@);
            assert(start + (k + 1) * rs == at + rs) by (nonlinear_arith)
                requires
                    at == start + k * rs,
            ;
            assert forall|jj: int| 0 <= jj < k + 1 implies #[trigger] remapped(
                tag@,
                before.subrange(start + jj * rs, start + jj * rs + rs),
                bytes@.subrange(start + jj * rs, start + jj * rs + rs),
                remap@,
            ) by {
                if jj < k {
                    assert(start + jj * rs + rs <= at) by (nonlinear_arith)
                        requires
                            jj < k,
                            at == start + k * rs,
                            0 <= jj,
                            0 < rs,
                    ;
                    assert(0 <= jj * rs) by (nonlinear_arith)
                        requires
                            0 <= jj,
                            0 < rs,
                    ;
                    assert(bytes@.subrange(start + jj * rs, start + jj * rs + rs) =~= mid.subrange(
                        start + jj * rs,
                        start + jj * rs + rs,
                    ));
                } else {
                    assert(jj * rs == k * rs);
                }
            }
        }
        k = k + 1;
    }
}

/// Rewrite the records of `raw`'s area `tag` within `bytes`, refusing an area that carries
/// checksums.
fn rebase_area(raw: &Raw, svd: &Svd, tag: &[u8; 4], bytes: &mut Vec<u8>, remap: &BTreeMap<u16, u16>) -> (r: Result<()>)
    requires
        parses_as(*svd, raw@),
        old(bytes)@.len() == raw@.len(),
    ensures
        match table_in(raw@, svd.areas@, tag@) {
            Err(e) => r == Err::<(), Error>(e),
            Ok(t) => if t matches Some(b) && info_stride(b) != 0 {
                r == Err::<(), Error>(Error::Checksummed { tag: *tag })
            } else {
                r is Ok && rebase_step(raw@, svd.areas@, tag@, old(bytes)@, final(bytes)@, remap@)
            },
        },
        r is Err ==> final(bytes)@ == old(bytes)@,
{
    match table_of(raw, svd, tag)? {
        Some(table) => {
            if table.info_stride() != 0 {
                return Err(Error::Checksummed { tag: *tag });
            }
            rewrite_records(bytes, &table, tag, remap);
        },
        None => {},
    }
    Ok(())
}

/// Whether `r` is what rebasing file `s` (parsed as `svd`) through `m` gives: an SVZ and a file
/// whose tone references cannot be rewritten in place are refused; otherwise the references of
/// the `PATa` tone records alone are rewritten, and the result is handed back exactly when it
/// checks clean.
pub open spec fn rebase_outcome(r: Result<Raw>, s: Seq<u8>, svd: Svd, m: Map<u16, u16>) -> bool {
    if svd.kind == Kind::Svz {
        r == Err::<Raw, Error>(Error::SamplesArePositional)
    } else {
        match rebase_error(s, svd.areas@) {
            Some(e) => r == Err::<Raw, Error>(e),
            None => (exists|out: Seq<u8>| #[trigger]
                rebase_step(s, svd.areas@, sample_ref_areas()[0], s, out, m)) && forall|out: Seq<u8>|
                #[trigger] rebase_step(s, svd.areas@, sample_ref_areas()[0], s, out, m) ==> vouched(
                r,
                out,
            ),
        }
    }
}


/// Repoint every bundled tone's user-sample references through `remap` (old slot to new slot).
///
/// The numbers a scene bank stores are absolute panel slots, so a sampled bank only plays
/// correctly where the destination holds that audio at those exact slots. Rewriting the
/// references instead lets the audio land anywhere free. Slots `remap` does not mention are left
/// alone. Only `PATa` is rewritten, because only a ZEN-Core tone's sample references are decoded;
/// the instrument sets of drum kits pass through unchanged. The result must check clean; a file
/// that would not is refused.
pub fn rebase_sample_slots(raw: &Raw, remap: &BTreeMap<u16, u16>) -> (r: Result<Raw>)
    ensures
        envelope_error(raw@) is Some ==> r is Err,
        forall|svd: Svd| #[trigger] parses_as(svd, raw@) ==> rebase_outcome(r, raw@, svd, remap@),
{
    let svd = Svd::parse(raw)?;
    proof {
        assert forall|other: Svd| #[trigger] parses_as(other, raw@) implies other.kind == svd.kind
            && other.areas@ == svd.areas@ by {
            crate::diff::lemma_areas_unique(other, svd, raw@);
        }
    }
    if matches!(svd.kind, Kind::Svz) {
        return Err(Error::SamplesArePositional);
    }
    let total = raw.len();
    let mut bytes = crate::bytes::copy_range(raw.bytes(), 0, total);
    assert(bytes@ =~= raw@);
    let pat = tag_of(0x50, 0x41, 0x54, 0x61);
    assert(pat@ =~= sample_ref_areas()[0]);
    assert(pat =~= [0x50u8, 0x41, 0x54, 0x61]);
    rebase_area(raw, &svd, &pat, &mut bytes, remap)?;
    let out = Raw::from_bytes(bytes);
    proof {
        assert(rebase_step(raw@, svd.areas@, sample_ref_areas()[0], raw@, out@, remap@));
        assert forall|o: Seq<u8>| #[trigger]
            rebase_step(raw@, svd.areas@, sample_ref_areas()[0], raw@, o, remap@) implies o == out@ by {
            law_rebase_step_unique(raw@, svd.areas@, sample_ref_areas()[0], raw@, o, out@, remap@);
        }
    }
    vouch(out)
}

/// The first of `numbers` that is not a scene number of a bank with `count` scenes (numbers run
/// from 1).
pub open spec fn first_out_of_range(numbers: Seq<usize>, count: nat) -> Option<usize>
    decreases numbers.len(),
{
    if numbers.len() == 0 {
        None
    } else {
        match first_out_of_range(numbers.drop_last(), count) {
            Some(n) => Some(n),
            None => if numbers.last() < 1 || numbers.last() > count {
                Some(numbers.last())
            } else {
                None
            },
        }
    }
}

/// The scenes `numbers` names, in the order given, each taken from the one bank.
pub open spec fn numbered(v: BankView, numbers: Seq<usize>) -> Seq<(int, Seq<u8>)> {
    numbers.map_values(|n: usize| (0int, v.scenes[n - 1]))
}

/// Whether `r` is what extracting scenes `numbers` from file `s` with area table `areas` gives.
pub open spec fn extract_outcome(r: Result<Raw>, s: Seq<u8>, areas: Seq<Area>, numbers: Seq<usize>) -> bool {
    match bank_parse(s, areas) {
        Err(e) => r == Err::<Raw, Error>(e),
        Ok(v) => match first_out_of_range(numbers, v.scenes.len()) {
            Some(n) => r == Err::<Raw, Error>(
                Error::SceneOutOfRange { scene: n, count: v.scenes.len() as usize },
            ),
            None => rebuild_outcome(r, s, areas, seq![v], numbered(v, numbers)),
        },
    }
}

proof fn lemma_out_of_range_prefix(numbers: Seq<usize>, count: nat, k: int, n: int)
    requires
        0 <= k <= n <= numbers.len(),
        first_out_of_range(numbers.subrange(0, k), count) is Some,
    ensures
        first_out_of_range(numbers.subrange(0, n), count) == first_out_of_range(
            numbers.subrange(0, k),
            count,
        ),
    decreases n - k,
{
    if k < n {
        lemma_out_of_range_prefix(numbers, count, k, n - 1);
        assert(numbers.subrange(0, n).drop_last() =~= numbers.subrange(0, n - 1));
    }
}

/// Build a scene bank holding only the requested scenes (numbered from 1), in the order given.
/// Every user record they play is carried along, once, renumbered densely.
pub fn extract_scenes(raw: &Raw, scene_numbers: &[usize]) -> (r: Result<Raw>)
    ensures
        scene_numbers@.len() == 0 ==> r == Err::<Raw, Error>(Error::NoScenes),
        scene_numbers@.len() > 0 && envelope_error(raw@) is Some ==> r is Err,
        scene_numbers@.len() > 0 ==> forall|svd: Svd| #[trigger]
            parses_as(svd, raw@) ==> extract_outcome(r, raw@, svd.areas@, scene_numbers@),
{
    if scene_numbers.len() == 0 {
        return Err(Error::NoScenes);
    }
    let bank = ExportBank::parse(raw)?;
    let count = bank.scenes.len();
    let ghost v = bank@;
    let ghost numbers = scene_numbers@;
    let mut picks: Vec<(usize, usize)> = Vec::new();
    let mut k: usize = 0;
    while k < scene_numbers.len()
        invariant
            k <= scene_numbers@.len(),
            numbers == scene_numbers@,
            count == bank.scenes@.len(),
            v == bank@,
            bank_wf(v),
            forall|svd: Svd| #[trigger] parses_as(svd, raw@) ==> bank_parse(raw@, svd.areas@) == Ok::<BankView, Error>(v),
            v.scenes.len() == count,
            first_out_of_range(numbers.subrange(0, k as int), count as nat) is None,
            picks@.len() == k,
            forall|j: int|
                0 <= j < k ==> (#[trigger] picks@[j]).0 == 0 && picks@[j].1 < count && picks@[j].1
                    == numbers[j] - 1,
        decreases scene_numbers@.len() - k,
    {
        let number = scene_numbers[k];
        assert(numbers.subrange(0, k + 1).drop_last() =~= numbers.subrange(0, k as int));
        if number < 1 || number > count {
            proof {
                lemma_out_of_range_prefix(numbers, count as nat, k + 1, numbers.len() as int);
                assert(numbers.subrange(0, numbers.len() as int) =~= numbers);
            }
            return Err(Error::SceneOutOfRange { scene: number, count });
        }
        picks.push((0, number - 1));
        k = k + 1;
    }
    assert(numbers.subrange(0, k as int) =~= numbers);
    let mut banks: Vec<&ExportBank> = Vec::new();
    banks.push(&bank);
    assert(banks_view(banks@) =~= seq![v]);
    assert(picks_view(banks_view(banks@), picks@) =~= numbered(v, numbers));
    rebuild(raw, &banks, &picks)
}


/// Every scene of `t` and then every scene of `s`, each from its own bank.
pub open spec fn merged(t: BankView, s: BankView) -> Seq<(int, Seq<u8>)> {
    t.scenes.map_values(|x: Seq<u8>| (0int, x)) + s.scenes.map_values(|x: Seq<u8>| (1int, x))
}

/// Whether `r` is what merging scene bank `s` (areas `sa`) into `t` (areas `ta`) gives: scene
/// records must agree in size and format, and the result is rebuilt over the target.
pub open spec fn merge_outcome(
    r: Result<Raw>,
    t: Seq<u8>,
    ta: Seq<Area>,
    s: Seq<u8>,
    sa: Seq<Area>,
) -> bool {
    match bank_parse(t, ta) {
        Err(e) => r == Err::<Raw, Error>(e),
        Ok(tv) => match bank_parse(s, sa) {
            Err(e) => r == Err::<Raw, Error>(e),
            Ok(sv) => if tv.size != sv.size {
                r == Err::<Raw, Error>(
                    Error::SceneSizesDiffer { target: tv.size as usize, source: sv.size as usize },
                )
            } else if tv.format != sv.format {
                r == Err::<Raw, Error>(Error::SceneFormatsDiffer)
            } else {
                rebuild_outcome(r, t, ta, seq![tv, sv], merged(tv, sv))
            },
        },
    }
}

/// Append every scene of `source` to those of `target`, carrying both banks' user records and
/// sharing the ones that are byte-for-byte identical. Both must be scene banks whose scene
/// records agree in size and format.
pub fn merge_scenes(target: &Raw, source: &Raw) -> (r: Result<Raw>)
    ensures
        envelope_error(target@) is Some ==> r is Err,
        forall|ta: Svd| #[trigger]
            parses_as(ta, target@) ==> (bank_parse(target@, ta.areas@) matches Err(e) ==> r
                == Err::<Raw, Error>(e)),
        forall|ta: Svd| #[trigger]
            parses_as(ta, target@) ==> (bank_parse(target@, ta.areas@) is Ok && envelope_error(
                source@,
            ) is Some ==> r is Err),
        forall|ta: Svd, sa: Svd|
            #![trigger parses_as(ta, target@), parses_as(sa, source@)]
            parses_as(ta, target@) && parses_as(sa, source@) ==> merge_outcome(
                r,
                target@,
                ta.areas@,
                source@,
                sa.areas@,
            ),
{
    let t = ExportBank::parse(target)?;
    let s = ExportBank::parse(source)?;
    if t.scene_record_size != s.scene_record_size {
        return Err(
            Error::SceneSizesDiffer { target: t.scene_record_size, source: s.scene_record_size },
        );
    }
    if !crate::bytes::same_tag(&t.scene_format, &s.scene_format) {
        return Err(Error::SceneFormatsDiffer);
    }
    let ghost tv = t@;
    let ghost sv = s@;
    let mut picks: Vec<(usize, usize)> = Vec::new();
    let mut i: usize = 0;
    while i < t.scenes.len()
        invariant
            i <= t.scenes@.len(),
            picks@.len() == i,
            forall|j: int| 0 <= j < i ==> (#[trigger] picks@[j]) == (0usize, j as usize),
        decreases t.scenes@.len() - i,
    {
        picks.push((0, i));
        i = i + 1;
    }
    let mut j: usize = 0;
    while j < s.scenes.len()
        invariant
            j <= s.scenes@.len(),
            picks@.len() == t.scenes@.len() + j,
            forall|k: int| 0 <= k < t.scenes@.len() ==> (#[trigger] picks@[k]) == (0usize, k as usize),
            forall|k: int|
                t.scenes@.len() <= k < picks@.len() ==> (#[trigger] picks@[k]) == (
                    1usize,
                    (k - t.scenes@.len()) as usize,
                ),
        decreases s.scenes@.len() - j,
    {
        picks.push((1, j));
        j = j + 1;
    }
    let mut banks: Vec<&ExportBank> = Vec::new();
    banks.push(&t);
    banks.push(&s);
    assert(banks_view(banks@) =~= seq![tv, sv]);
    assert(picks_view(banks_view(banks@), picks@) =~= merged(tv, sv));
    rebuild(target, &banks, &picks)
}

} // verus!

verus! {

proof fn lemma_rewritten_table(s: Seq<u8>, out: Seq<u8>, a: Area, m: Map<u16, u16>, k: int)
    requires
        fits(a, s.len()),
        table_error(a.tag, block(s, a)) is None,
        records_rewritten(
            s,
            out,
            a.offset + data_start(block(s, a)),
            le32(block(s, a), 4) as int,
            whole_records(block(s, a)) as int,
            tag4('P', 'A', 'T', 'a'),
            m,
        ),
        0 <= k < whole_records(block(s, a)),
    ensures
        block(out, a).len() == block(s, a).len(),
        le32(block(out, a), 0) == le32(block(s, a), 0),
        le32(block(out, a), 4) == le32(block(s, a), 4),
        data_start(block(out, a)) == data_start(block(s, a)),
        whole_records(block(out, a)) == whole_records(block(s, a)),
        table_error(a.tag, block(out, a)) is None,
        remapped(tag4('P', 'A', 'T', 'a'), record_of(block(s, a), k), record_of(block(out, a), k), m),
{
    let b = block(s, a);
    let c = block(out, a);
    let ds = data_start(b) as int;
    let rs = le32(b, 4) as int;
    let n = whole_records(b) as int;
    let body = if b.len() >= ds { b.len() - ds } else { 0 };
    assert(n <= body / rs);
    assert(n * rs <= body) by (nonlinear_arith)
        requires
            0 <= n <= body / rs,
            rs > 0,
            body >= 0,
    ;
    assert(b.len() >= ds) by {
        if b.len() < ds {
            assert(n == 0) by (nonlinear_arith)
                requires
                    0 <= n <= body / rs,
                    rs > 0,
                    body == 0,
            ;
        }
    }
    assert(ds >= 12);
    assert forall|j: int| 0 <= j < 12 implies c[j] == b[j] by {
        assert(out[a.offset + j] == s[a.offset + j]);
    }
    assert(le32(c, 0) == le32(b, 0));
    assert(le32(c, 4) == le32(b, 4));
    assert(le32(c, 8) == le32(b, 8));
    assert(data_start(c) == data_start(b));
    assert(0 <= k * rs && k * rs + rs <= n * rs) by (nonlinear_arith)
        requires
            0 <= k < n,
            rs > 0,
    ;
    let lo = a.offset + ds + k * rs;
    assert((k + 1) * rs == k * rs + rs) by (nonlinear_arith);
    assert(remapped(tag4('P', 'A', 'T', 'a'), s.subrange(lo, lo + rs), out.subrange(lo, lo + rs), m));
    assert(record_of(b, k) =~= s.subrange(lo, lo + rs));
    assert(record_of(c, k) =~= out.subrange(lo, lo + rs));
}

/// Rewriting a file's tone references through `m`, which neither moves nor makes a slot 0,
/// leaves its tones playing exactly the slots they played before, each moved as `m` says.
pub proof fn law_rebase_moves_tone_slots(s: Seq<u8>, areas: Seq<Area>, out: Seq<u8>, m: Map<u16, u16>)
    requires
        rebase_step(s, areas, sample_ref_areas()[0], s, out, m),
        table_in(s, areas, sample_ref_areas()[0]) is Ok,
        forall|k: u16| #[trigger] m.contains_key(k) ==> m[k] != 0,
        !m.contains_key(0),
    ensures
        table_in(out, areas, sample_ref_areas()[0]) is Ok,
        slots_in(sample_ref_areas()[0], table_in(out, areas, sample_ref_areas()[0])->Ok_0) == slots_in(
            sample_ref_areas()[0],
            table_in(s, areas, sample_ref_areas()[0])->Ok_0,
        ).map(|x: u16| crate::container::retarget(m, x)),
{
    let pat = sample_ref_areas()[0];
    assert(pat == tag4('P', 'A', 'T', 'a'));
    match table_in(s, areas, pat) {
        Ok(None) => {
            assert(out == s);
            assert(slots_in(pat, None) =~= Set::<u16>::empty().map(|x: u16| crate::container::retarget(m, x)));
        },
        Ok(Some(b)) => {
            lemma_first_area(areas, pat);
            let a = areas[first_area(areas, pat)->Some_0];
            assert(b == block(s, a));
            let c = block(out, a);
            let n = whole_records(b) as int;
            if n > 0 {
                lemma_rewritten_table(s, out, a, m, 0);
            } else {
                assert(fits(a, s.len()));
                assert(records_rewritten(
                    s,
                    out,
                    a.offset + data_start(b),
                    le32(b, 4) as int,
                    0,
                    pat,
                    m,
                ));
                assert(c =~= b) by {
                    assert forall|j: int| 0 <= j < b.len() implies c[j] == b[j] by {
                        let i = a.offset + j;
                        assert(0 <= i < s.len());
                        assert(0 * (le32(b, 4) as int) == 0);
                        assert(!(a.offset + data_start(b) <= i < a.offset + data_start(b) + 0 * (le32(b, 4) as int)));
                        assert(out[i] == s[i]);
                    }
                }
            }
            assert(table_in(out, areas, pat) == Ok::<Option<Seq<u8>>, Error>(Some(c)));
            let before = slots_in(pat, Some(b));
            let after = slots_in(pat, Some(c));
            let f = |x: u16| crate::container::retarget(m, x);
            assert forall|x: u16| after.contains(x) <==> before.map(f).contains(x) by {
                if after.contains(x) {
                    let k = choose|k: int| 0 <= k < whole_records(c) && #[trigger] record_slots(pat, record_of(c, k)).contains(x);
                    lemma_rewritten_table(s, out, a, m, k);
                    crate::container::law_remapped_record_slots(record_of(b, k), record_of(c, k), m);
                    assert(record_slots(pat, record_of(c, k)).to_set().contains(x));
                    let y = choose|y: u16| record_slots(pat, record_of(b, k)).to_set().contains(y) && f(y) == x;
                    assert(record_slots(pat, record_of(b, k)).contains(y));
                    assert(before.contains(y));
                }
                if before.map(f).contains(x) {
                    let y = choose|y: u16| before.contains(y) && f(y) == x;
                    let k = choose|k: int| 0 <= k < whole_records(b) && #[trigger] record_slots(pat, record_of(b, k)).contains(y);
                    lemma_rewritten_table(s, out, a, m, k);
                    crate::container::law_remapped_record_slots(record_of(b, k), record_of(c, k), m);
                    assert(record_slots(pat, record_of(b, k)).to_set().contains(y));
                    assert(record_slots(pat, record_of(b, k)).to_set().map(f).contains(x));
                    assert(record_slots(pat, record_of(c, k)).to_set().contains(x));
                    assert(record_slots(pat, record_of(c, k)).contains(x));
                }
            }
            assert(after =~= before.map(f));
        },
        Err(_) => {},
    }
}

} // verus!

verus! {

proof fn lemma_run_map(slots: Seq<u16>, base: int, i: int)
    requires
        ascending(slots),
        0 <= i <= slots.len(),
        1 <= base,
        base + slots.len() <= 0x10000,
    ensures
        run_map(slots, base, i).dom() == slots.take(i).to_set(),
        forall|j: int| 0 <= j < i ==> #[trigger] run_map(slots, base, i)[slots[j]] == base + j,
    decreases i,
{
    if i > 0 {
        lemma_run_map(slots, base, i - 1);
        assert(slots.take(i).to_set() =~= slots.take(i - 1).to_set().insert(slots[i - 1])) by {
            assert(slots.take(i) =~= slots.take(i - 1).push(slots[i - 1]));
            assert forall|x: u16| slots.take(i).to_set().contains(x) <==> slots.take(i - 1).to_set().insert(slots[i - 1]).contains(x) by {
                if slots.take(i).contains(x) {
                    let k = choose|k: int| 0 <= k < i && #[trigger] slots.take(i)[k] == x;
                    if k < i - 1 {
                        assert(slots.take(i - 1)[k] == x);
                    }
                }
                if slots.take(i - 1).contains(x) {
                    let k = choose|k: int| 0 <= k < i - 1 && #[trigger] slots.take(i - 1)[k] == x;
                    assert(slots.take(i)[k] == x);
                }
                if x == slots[i - 1] {
                    assert(slots.take(i)[i - 1] == x);
                }
            }
        }
        assert forall|j: int| 0 <= j < i implies #[trigger] run_map(slots, base, i)[slots[j]] == base + j by {
            if j < i - 1 {
                assert(slots[j] != slots[i - 1]);
            }
        }
    } else {
        assert(slots.take(0).to_set() =~= Set::<u16>::empty());
    }
}

/// Rebasing a file whose tones play the ascending `slots` through the map that numbers them on
/// from `base`, in order, leaves its tones playing exactly the run `base..base + slots.len()`.
pub proof fn law_rebase_onto_run(s: Seq<u8>, areas: Seq<Area>, out: Seq<u8>, slots: Seq<u16>, base: u16)
    requires
        table_in(s, areas, sample_ref_areas()[0]) is Ok,
        ascending(slots),
        slots.to_set() == slots_in(sample_ref_areas()[0], table_in(s, areas, sample_ref_areas()[0])->Ok_0),
        1 <= base,
        base + slots.len() <= 0x10000,
        rebase_step(s, areas, sample_ref_areas()[0], s, out, run_map(slots, base as int, slots.len() as int)),
    ensures
        table_in(out, areas, sample_ref_areas()[0]) is Ok,
        slots_in(sample_ref_areas()[0], table_in(out, areas, sample_ref_areas()[0])->Ok_0) == Set::new(
            |x: u16| base <= x < base + slots.len(),
        ),
{
    let n = slots.len() as int;
    let m = run_map(slots, base as int, n);
    lemma_run_map(slots, base as int, n);
    assert(slots.take(n) =~= slots);
    let pat = sample_ref_areas()[0];
    let before = slots_in(pat, table_in(s, areas, pat)->Ok_0);
    assert(!before.contains(0)) by {
        if before.contains(0) {
            if let Ok(Some(b)) = table_in(s, areas, pat) {
                let k = choose|k: int| 0 <= k < whole_records(b) && #[trigger] record_slots(pat, record_of(b, k)).contains(0u16);
                crate::container::lemma_record_slots_nonzero(record_of(b, k));
            }
        }
    }
    assert(!m.contains_key(0)) by {
        if m.contains_key(0) {
            assert(slots.to_set().contains(0));
        }
    }
    assert forall|k: u16| #[trigger] m.contains_key(k) implies m[k] != 0 by {
        assert(slots.to_set().contains(k));
        let j = choose|j: int| 0 <= j < n && #[trigger] slots[j] == k;
        assert(m[slots[j]] == base + j);
    }
    law_rebase_moves_tone_slots(s, areas, out, m);
    let f = |x: u16| crate::container::retarget(m, x);
    let run = Set::new(|x: u16| base <= x < base + n);
    assert forall|x: u16| before.map(f).contains(x) <==> run.contains(x) by {
        if before.map(f).contains(x) {
            let y = choose|y: u16| before.contains(y) && f(y) == x;
            assert(slots.to_set().contains(y));
            let j = choose|j: int| 0 <= j < n && #[trigger] slots[j] == y;
            assert(m[slots[j]] == base + j);
        }
        if run.contains(x) {
            let j = x - base;
            assert(m[slots[j]] == base + j);
            assert(slots.to_set().contains(slots[j]));
            assert(before.contains(slots[j]));
            assert(f(slots[j]) == x);
        }
    }
    assert(before.map(f) =~= run);
}


/// Whether the areas `areas` all start after their table and no two of them share a byte.
pub open spec fn areas_apart(areas: Seq<Area>) -> bool {
    &&& forall|i: int| 0 <= i < areas.len() ==> (#[trigger] areas[i]).offset >= crate::container::svd::PREAMBLE_LEN + 16 * areas.len()
    &&& forall|i: int, j: int|
        0 <= i < areas.len() && 0 <= j < areas.len() && i != j ==> (#[trigger] areas[i]).offset + areas[i].size
            <= (#[trigger] areas[j]).offset || areas[j].offset + areas[j].size <= areas[i].offset
}

proof fn lemma_records_within(b: Seq<u8>)
    requires
        b.len() >= 8,
        le32(b, 4) != 0,
    ensures
        whole_records(b) > 0 ==> data_start(b) + whole_records(b) * (le32(b, 4) as int) <= b.len(),
{
    let ds = data_start(b) as int;
    let rs = le32(b, 4) as int;
    let n = whole_records(b) as int;
    let body = if b.len() >= ds { b.len() - ds } else { 0 };
    if n > 0 {
        assert(n <= body / rs);
        assert(n * rs <= body) by (nonlinear_arith)
            requires
                0 <= n <= body / rs,
                rs > 0,
                body >= 0,
        ;
        if b.len() < ds {
            assert(n == 0) by (nonlinear_arith)
                requires
                    0 <= n <= body / rs,
                    rs > 0,
                    body == 0,
            ;
        }
    }
}

/// The bytes a rebase of file `s` into `o` may rewrite: the records of its tone area.
pub open spec fn rewritten_span(s: Seq<u8>, areas: Seq<Area>) -> (int, int) {
    match table_in(s, areas, sample_ref_areas()[0]) {
        Ok(Some(b)) => {
            let a = areas[first_area(areas, sample_ref_areas()[0])->Some_0];
            (a.offset + data_start(b), a.offset + data_start(b) + whole_records(b) * (le32(b, 4) as int))
        },
        _ => (0, 0),
    }
}

proof fn lemma_rebase_span(s: Seq<u8>, areas: Seq<Area>, o: Seq<u8>, m: Map<u16, u16>)
    requires
        rebase_step(s, areas, sample_ref_areas()[0], s, o, m),
        table_in(s, areas, sample_ref_areas()[0]) is Ok,
    ensures
        o.len() == s.len(),
        forall|i: int| 0 <= i < s.len() && !(rewritten_span(s, areas).0 <= i < rewritten_span(s, areas).1) ==> #[trigger] o[i] == s[i],
        table_in(s, areas, sample_ref_areas()[0]) matches Ok(Some(b)) ==> {
            let a = areas[first_area(areas, sample_ref_areas()[0])->Some_0];
            &&& 0 <= first_area(areas, sample_ref_areas()[0])->Some_0 < areas.len()
            &&& (rewritten_span(s, areas).0 == rewritten_span(s, areas).1 || (a.offset <= rewritten_span(s, areas).0
                && rewritten_span(s, areas).1 <= a.offset + a.size))
        },
{
    let pat = sample_ref_areas()[0];
    if let Ok(Some(b)) = table_in(s, areas, pat) {
        lemma_first_area(areas, pat);
        lemma_records_within(b);
        let rs = le32(b, 4) as int;
        let n = whole_records(b) as int;
        if n == 0 {
            assert(n * rs == 0);
        }
    }
}

#[verifier::rlimit(40)]
proof fn lemma_rebase_keeps_envelope(s: Seq<u8>, svd: Svd, o: Seq<u8>, m: Map<u16, u16>)
    requires
        parses_as(svd, s),
        areas_apart(svd.areas@),
        rebase_step(s, svd.areas@, sample_ref_areas()[0], s, o, m),
        table_in(s, svd.areas@, sample_ref_areas()[0]) is Ok,
    ensures
        o.len() == s.len(),
        parses_as(svd, o),
        table_in(o, svd.areas@, sample_ref_areas()[1]) == table_in(s, svd.areas@, sample_ref_areas()[1]),
{
    let areas = svd.areas@;
    let pat = sample_ref_areas()[0];
    let ins = sample_ref_areas()[1];
    lemma_rebase_span(s, areas, o, m);
    let (lo, hi) = rewritten_span(s, areas);
    let table_end = crate::container::svd::PREAMBLE_LEN + 16 * areas.len();
    assert forall|i: int| 0 <= i < table_end && i < s.len() implies o[i] == s[i] by {
        if let Ok(Some(b)) = table_in(s, areas, pat) {
            let a = areas[first_area(areas, pat)->Some_0];
            assert(a.offset >= table_end);
        }
    }
    assert(o.subrange(0, 4) =~= s.subrange(0, 4));
    assert(o.subrange(2, 6) =~= s.subrange(2, 6));
    assert(o[0] == s[0] && o[1] == s[1] && o[4] == s[4]);
    assert(crate::container::svd::kind_of(o) == crate::container::svd::kind_of(s));
    assert(crate::container::svd::area_count(o) == crate::container::svd::area_count(s));
    assert(envelope_error(o) == envelope_error(s));
    assert forall|i: int| 0 <= i < areas.len() implies crate::container::svd::is_entry(
        #[trigger] areas[i],
        o,
        crate::container::svd::PREAMBLE_LEN + 16 * i,
    ) by {
        let at = crate::container::svd::PREAMBLE_LEN + 16 * i;
        assert(crate::container::svd::is_entry(areas[i], s, at));
        assert(o.subrange(at, at + 4) =~= s.subrange(at, at + 4));
        assert(o.subrange(at + 4, at + 8) =~= s.subrange(at + 4, at + 8));
        assert(o[at + 8] == s[at + 8] && o[at + 9] == s[at + 9] && o[at + 10] == s[at + 10] && o[at + 11] == s[at + 11]);
        assert(o[at + 12] == s[at + 12] && o[at + 13] == s[at + 13] && o[at + 14] == s[at + 14] && o[at + 15] == s[at + 15]);
    }
    lemma_first_area(areas, ins);
    lemma_first_area(areas, pat);
    if let Some(j) = first_area(areas, ins) {
        let aj = areas[j];
        if fits(aj, s.len()) {
            assert(block(o, aj) =~= block(s, aj)) by {
                assert forall|k: int| 0 <= k < aj.size implies #[trigger] block(o, aj)[k] == block(s, aj)[k] by {
                    let i = aj.offset + k;
                    if let Ok(Some(b)) = table_in(s, areas, pat) {
                        let p = first_area(areas, pat)->Some_0;
                        assert(areas[p].tag@ == pat);
                        assert(aj.tag@ == ins);
                        assert(p != j);
                        assert(!(lo <= i < hi));
                    }
                }
            }
        }
    }
}

/// Rebasing a backup onto a run: when its tones play the ascending `slots` and its drum kits
/// play none, a rebase through the run from `base` that succeeds gives a file of the same length
/// and envelope whose bundled sounds play exactly `base`, `base + 1`, … — one slot per sample,
/// in order. This holds of files whose areas start after their table and do not overlap.
pub proof fn law_rebase_references_run(s: Seq<u8>, svd: Svd, out: Raw, slots: Seq<u16>, base: u16)
    requires
        parses_as(svd, s),
        areas_apart(svd.areas@),
        referenced_slots(s, svd.areas@) == Ok::<Set<u16>, Error>(slots.to_set()),
        table_in(s, svd.areas@, sample_ref_areas()[1]) matches Ok(ins) && slots_in(sample_ref_areas()[1], ins)
            == Set::<u16>::empty(),
        ascending(slots),
        1 <= base,
        base + slots.len() <= 0x10000,
        rebase_outcome(Ok(out), s, svd, run_map(slots, base as int, slots.len() as int)),
    ensures
        out@.len() == s.len(),
        parses_as(svd, out@),
        referenced_slots(out@, svd.areas@) == Ok::<Set<u16>, Error>(
            Set::new(|x: u16| base <= x < base + slots.len()),
        ),
{
    let areas = svd.areas@;
    let m = run_map(slots, base as int, slots.len() as int);
    let pat = sample_ref_areas()[0];
    let ins = sample_ref_areas()[1];
    assert(svd.kind != Kind::Svz);
    assert(rebase_error(s, areas) is None);
    let o = choose|o: Seq<u8>| #[trigger] rebase_step(s, areas, pat, s, o, m);
    assert(rebase_step(s, areas, pat, s, o, m));
    let pset = slots_in(pat, table_in(s, areas, pat)->Ok_0);
    let iset = slots_in(ins, table_in(s, areas, ins)->Ok_0);
    assert(pset.union(iset) == slots.to_set());
    assert(pset =~= slots.to_set());
    law_rebase_onto_run(s, areas, o, slots, base);
    lemma_rebase_keeps_envelope(s, svd, o, m);
    assert(vouched(Ok(out), o));
    assert(out@ == o);
    assert(slots_in(pat, table_in(o, areas, pat)->Ok_0).union(iset) =~= Set::new(
        |x: u16| base <= x < base + slots.len(),
    ));
}

} // verus!
