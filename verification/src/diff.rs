//! Byte-level comparison of two SVD files, resolved to `AREA[record]+offset`.
//!
//! Every confirmed offset of the format came from exporting two files that differ by one
//! deliberate change and finding the bytes that moved. This module is that workflow: it aligns the
//! two files area by area and record by record, so a differing byte is reported where it means
//! something (`DCWa[0]+0x0015`) rather than as a bare file offset, and a file that gained or lost a
//! record does not smear every later byte.

use vstd::prelude::*;

use crate::container::records::{data_start, table_error, whole_records};
use crate::container::svd::{
    envelope_error, first_area, fits, is_entry, lemma_first_area, parses_as, PREAMBLE_LEN,
};
use crate::container::{Area, Raw, RecordTable, Svd};
use crate::bytes::le32;
use crate::text::{ascii_trim, field_text};
use crate::{Error, Result};

verus! {

/// The leading `count` and `record_size` fields of an area header, reported semantically instead.
pub const STRUCTURAL_HEADER_LEN: usize = 8;

/// Which of the two compared files a one-sided finding belongs to.
#[derive(Debug, Clone, Copy, PartialEq, Eq)]
pub enum Side {
    Left,
    Right,
}

impl Side {
    pub open spec fn spec_label(self) -> &'static str {
        match self {
            Side::Left => "left",
            Side::Right => "right",
        }
    }

    pub fn label(self) -> (s: &'static str)
        ensures
            s == self.spec_label(),
    {
        match self {
            Side::Left => "left",
            Side::Right => "right",
        }
    }
}

/// A maximal run of consecutive differing bytes within one aligned block.
#[derive(Debug, Clone, PartialEq)]
pub struct ByteRun {
    /// Offset of the run within its record (or within the area header).
    pub offset: usize,
    /// Absolute file offset in the left file.
    pub left_at: usize,
    /// Absolute file offset in the right file.
    pub right_at: usize,
    pub left: Vec<u8>,
    pub right: Vec<u8>,
}

/// Whether position `i` holds different bytes in `l` and `r` (both must reach it).
pub open spec fn differs_at(l: Seq<u8>, r: Seq<u8>, i: int) -> bool {
    0 <= i < l.len() && i < r.len() && l[i] != r[i]
}

/// Whether `l` and `r` differ anywhere at or after `from`.
pub open spec fn has_diff(l: Seq<u8>, r: Seq<u8>, from: int) -> bool {
    exists|i: int| from <= i && #[trigger] differs_at(l, r, i)
}

/// Whether `runs`, as `(start, end)` pairs, are exactly the maximal runs of positions at or after
/// `from` where `l` and `r` differ, in increasing order.
pub open spec fn maximal_runs(runs: Seq<(int, int)>, l: Seq<u8>, r: Seq<u8>, from: int) -> bool {
    &&& forall|k: int|
        0 <= k < runs.len() ==> {
            let (a, b) = #[trigger] runs[k];
            &&& from <= a < b
            &&& forall|i: int| a <= i < b ==> differs_at(l, r, i)
            &&& (a == from || !differs_at(l, r, a - 1))
            &&& !differs_at(l, r, b)
        }
    &&& forall|k: int| 0 <= k < runs.len() - 1 ==> #[trigger] runs[k].1 < runs[k + 1].0
    &&& forall|i: int|
        from <= i && #[trigger] differs_at(l, r, i) ==> exists|k: int|
            0 <= k < runs.len() && (#[trigger] runs[k]).0 <= i < runs[k].1
}

/// The `(start, end)` span of each run.
pub open spec fn spans(v: Seq<ByteRun>) -> Seq<(int, int)> {
    Seq::new(v.len(), |k: int| (v[k].offset as int, v[k].offset + v[k].left@.len()))
}

/// Whether `v` lists the maximal differing runs of `l` and `r` from `from`, each with the bytes
/// of both sides and its absolute offsets given that the blocks start at `left_at` / `right_at`.
pub open spec fn runs_of(
    v: Seq<ByteRun>,
    l: Seq<u8>,
    r: Seq<u8>,
    left_at: int,
    right_at: int,
    from: int,
) -> bool {
    &&& maximal_runs(spans(v), l, r, from)
    &&& forall|k: int|
        0 <= k < v.len() ==> {
            let run = #[trigger] v[k];
            &&& run.left_at == left_at + run.offset
            &&& run.right_at == right_at + run.offset
            &&& run.left@ == l.subrange(run.offset as int, run.offset + run.left@.len())
            &&& run.right@ == r.subrange(run.offset as int, run.offset + run.left@.len())
        }
}

pub proof fn lemma_runs_empty(v: Seq<ByteRun>, l: Seq<u8>, r: Seq<u8>, left_at: int, right_at: int, from: int)
    requires
        runs_of(v, l, r, left_at, right_at, from),
    ensures
        v.len() == 0 <==> !has_diff(l, r, from),
{
    let s = spans(v);
    if v.len() > 0 {
        let (a, b) = s[0];
        assert(differs_at(l, r, a));
    }
    if has_diff(l, r, from) {
        let i = choose|i: int| from <= i && #[trigger] differs_at(l, r, i);
        assert(exists|k: int| 0 <= k < s.len() && (#[trigger] s[k]).0 <= i < s[k].1);
    }
}

/// Group the differing bytes of two blocks into maximal consecutive runs, ignoring everything
/// before `from`.
fn runs_between_from(left: &[u8], right: &[u8], left_at: usize, right_at: usize, from: usize) -> (v:
    Vec<ByteRun>)
    requires
        left_at + left@.len() <= usize::MAX,
        right_at + right@.len() <= usize::MAX,
    ensures
        runs_of(v@, left@, right@, left_at as int, right_at as int, from as int),
{
    let mut runs: Vec<ByteRun> = Vec::new();
    let len = if left.len() < right.len() {
        left.len()
    } else {
        right.len()
    };
    if from >= len {
        proof {
            assert(spans(runs@) =~= Seq::<(int, int)>::empty());
            assert forall|i: int| from <= i && #[trigger] differs_at(left@, right@, i) implies false by {}
        }
        return runs;
    }
    let mut start: Option<usize> = None;
    let mut i: usize = from;
    while i < len
        invariant
            from < len,
            len <= left@.len(),
            len <= right@.len(),
            len == left@.len() || len == right@.len(),
            from <= i <= len,
            left_at + left@.len() <= usize::MAX,
            right_at + right@.len() <= usize::MAX,
            forall|k: int|
                0 <= k < runs@.len() ==> {
                    let run = #[trigger] runs@[k];
                    &&& run.left_at == left_at + run.offset
                    &&& run.right_at == right_at + run.offset
                    &&& run.left@ == left@.subrange(run.offset as int, run.offset + run.left@.len())
                    &&& run.right@ == right@.subrange(run.offset as int, run.offset + run.left@.len())
                },
            forall|k: int|
                0 <= k < spans(runs@).len() ==> {
                    let (a, b) = #[trigger] spans(runs@)[k];
                    &&& from <= a < b
                    &&& forall|j: int| a <= j < b ==> differs_at(left@, right@, j)
                    &&& (a == from || !differs_at(left@, right@, a - 1))
                    &&& !differs_at(left@, right@, b)
                    &&& b < i
                },
            forall|k: int|
                0 <= k < spans(runs@).len() - 1 ==> #[trigger] spans(runs@)[k].1 < spans(
                    runs@,
                )[k + 1].0,
            match start {
                Some(s) => {
                    &&& from <= s < i
                    &&& forall|j: int| s <= j < i ==> differs_at(left@, right@, j)
                    &&& (s == from || !differs_at(left@, right@, s - 1))
                    &&& forall|k: int| 0 <= k < spans(runs@).len() ==> #[trigger] spans(runs@)[k].1 < s
                    &&& forall|j: int|
                        from <= j < s && #[trigger] differs_at(left@, right@, j) ==> exists|k: int|
                            0 <= k < spans(runs@).len() && (#[trigger] spans(runs@)[k]).0 <= j < spans(runs@)[k].1
                },
                None => {
                    &&& (i == from || !differs_at(left@, right@, i - 1))
                    &&& forall|j: int|
                        from <= j < i && #[trigger] differs_at(left@, right@, j) ==> exists|k: int|
                            0 <= k < spans(runs@).len() && (#[trigger] spans(runs@)[k]).0 <= j < spans(runs@)[k].1
                },
            },
        decreases len - i,
    {
        let differs = left[i] != right[i];
        assert(differs == differs_at(left@, right@, i as int));
        let ghost before = runs@;
        match start {
            None => {
                if differs {
                    start = Some(i);
                }
            },
            Some(s) => {
                if !differs {
                    let run = ByteRun {
                        offset: s,
                        left_at: left_at + s,
                        right_at: right_at + s,
                        left: crate::bytes::copy_range(left, s, i),
                        right: crate::bytes::copy_range(right, s, i),
                    };
                    runs.push(run);
                    start = None;
                    proof {
                        assert(spans(runs@) =~= spans(before).push((s as int, i as int)));
                        assert forall|j: int|
                            from <= j < i + 1 && #[trigger] differs_at(left@, right@, j) implies exists|k: int|
                            0 <= k < spans(runs@).len() && (#[trigger] spans(runs@)[k]).0 <= j < spans(runs@)[k].1 by {
                            if j >= s {
                                assert(spans(runs@)[spans(runs@).len() - 1] == (s as int, i as int));
                            } else {
                                let k = choose|k: int|
                                    0 <= k < spans(before).len() && (#[trigger] spans(before)[k]).0 <= j < spans(before)[k].1;
                                assert(spans(runs@)[k] == spans(before)[k]);
                            }
                        }
                    }
                }
            },
        }
        proof {
            if runs@ == before {
                assert(spans(runs@) == spans(before));
            }
        }
        i = i + 1;
    }
    // The scan ends at the shorter block's end: close a run still open there.
    let ghost before = runs@;
    if let Some(s) = start {
        assert(!differs_at(left@, right@, len as int));
        let run = ByteRun {
            offset: s,
            left_at: left_at + s,
            right_at: right_at + s,
            left: crate::bytes::copy_range(left, s, len),
            right: crate::bytes::copy_range(right, s, len),
        };
        runs.push(run);
        proof {
            assert(spans(runs@) =~= spans(before).push((s as int, len as int)));
            assert forall|j: int| from <= j && #[trigger] differs_at(left@, right@, j) implies exists|k: int|
                0 <= k < spans(runs@).len() && (#[trigger] spans(runs@)[k]).0 <= j < spans(runs@)[k].1 by {
                if j >= s {
                    assert(spans(runs@)[spans(runs@).len() - 1] == (s as int, len as int));
                } else {
                    let k = choose|k: int|
                        0 <= k < spans(before).len() && (#[trigger] spans(before)[k]).0 <= j < spans(before)[k].1;
                    assert(spans(runs@)[k] == spans(before)[k]);
                }
            }
        }
    } else {
        proof {
            assert forall|j: int| from <= j && #[trigger] differs_at(left@, right@, j) implies exists|k: int|
                0 <= k < spans(runs@).len() && (#[trigger] spans(runs@)[k]).0 <= j < spans(runs@)[k].1 by {
                assert(j < len);
            }
        }
    }
    runs
}

/// One way in which two SVD files differ.
#[derive(Debug, Clone, PartialEq)]
pub enum Finding {
    /// An area present in one file and absent from the other.
    AreaOnlyIn { tag: String, side: Side, size: u32, records: usize },
    /// Both files have the area, but its records are a different size — not comparable.
    RecordSizeDiffers { tag: String, left: usize, right: usize },
    /// Both files have the area with different record counts.
    RecordCountDiffers { tag: String, left: usize, right: usize },
    /// A record present in one file only (beyond the other's record count).
    RecordOnlyIn { tag: String, side: Side, record: usize, name: String },
    /// Differing bytes inside an area's 16-byte header.
    AreaHeader { tag: String, runs: Vec<ByteRun> },
    /// Differing bytes in an area that is not a record table, compared whole.
    AreaBytes { tag: String, runs: Vec<ByteRun> },
    /// Differing bytes inside a record shared by both files.
    Record { tag: String, record: usize, runs: Vec<ByteRun> },
}

/// The area tag a finding concerns.
pub open spec fn finding_tag(f: Finding) -> String {
    match f {
        Finding::AreaOnlyIn { tag, .. } => tag,
        Finding::RecordSizeDiffers { tag, .. } => tag,
        Finding::RecordCountDiffers { tag, .. } => tag,
        Finding::RecordOnlyIn { tag, .. } => tag,
        Finding::AreaHeader { tag, .. } => tag,
        Finding::AreaBytes { tag, .. } => tag,
        Finding::Record { tag, .. } => tag,
    }
}

/// How many bytes the runs account for.
pub open spec fn run_bytes(runs: Seq<ByteRun>) -> int
    decreases runs.len(),
{
    if runs.len() == 0 {
        0
    } else {
        run_bytes(runs.drop_last()) + runs.last().left@.len()
    }
}

/// How many differing bytes a finding accounts for.
pub open spec fn finding_bytes(f: Finding) -> int {
    match f {
        Finding::AreaHeader { runs, .. } => run_bytes(runs@),
        Finding::AreaBytes { runs, .. } => run_bytes(runs@),
        Finding::Record { runs, .. } => run_bytes(runs@),
        _ => 0,
    }
}

fn sum_run_bytes(runs: &Vec<ByteRun>) -> (n: usize)
    requires
        run_bytes(runs@) <= usize::MAX,
    ensures
        n == run_bytes(runs@),
{
    let mut n: usize = 0;
    let mut i: usize = 0;
    while i < runs.len()
        invariant
            i <= runs@.len(),
            run_bytes(runs@) <= usize::MAX,
            n == run_bytes(runs@.subrange(0, i as int)),
        decreases runs@.len() - i,
    {
        proof {
            assert(runs@.subrange(0, i + 1).drop_last() =~= runs@.subrange(0, i as int));
            lemma_run_bytes_prefix(runs@, i + 1);
        }
        n = n + runs[i].left.len();
        i = i + 1;
    }
    assert(runs@.subrange(0, runs@.len() as int) =~= runs@);
    n
}

proof fn lemma_run_bytes_prefix(runs: Seq<ByteRun>, k: int)
    requires
        0 <= k <= runs.len(),
    ensures
        run_bytes(runs.subrange(0, k)) <= run_bytes(runs),
    decreases runs.len(),
{
    if k < runs.len() {
        assert(runs.drop_last().subrange(0, k) =~= runs.subrange(0, k));
        lemma_run_bytes_prefix(runs.drop_last(), k);
    } else {
        assert(runs.subrange(0, k) =~= runs);
    }
}

impl Finding {
    /// The area tag this finding concerns.
    pub fn tag(&self) -> (t: &str)
        ensures
            t@ == finding_tag(*self)@,
    {
        match self {
            Finding::AreaOnlyIn { tag, .. } => tag.as_str(),
            Finding::RecordSizeDiffers { tag, .. } => tag.as_str(),
            Finding::RecordCountDiffers { tag, .. } => tag.as_str(),
            Finding::RecordOnlyIn { tag, .. } => tag.as_str(),
            Finding::AreaHeader { tag, .. } => tag.as_str(),
            Finding::AreaBytes { tag, .. } => tag.as_str(),
            Finding::Record { tag, .. } => tag.as_str(),
        }
    }

    /// How many differing bytes this finding accounts for: the left side of each of its runs.
    pub fn changed_bytes(&self) -> (n: usize)
        requires
            finding_bytes(*self) <= usize::MAX,
        ensures
            n == finding_bytes(*self),
    {
        match self {
            Finding::AreaHeader { runs, .. } => sum_run_bytes(runs),
            Finding::AreaBytes { runs, .. } => sum_run_bytes(runs),
            Finding::Record { runs, .. } => sum_run_bytes(runs),
            _ => 0,
        }
    }
}

/// What kind of difference an expected finding reports, with its plain values.
#[derive(Debug, Clone, Copy, PartialEq, Eq)]
pub enum Change {
    AreaOnlyIn { side: Side, size: u32, records: usize },
    RecordSizeDiffers { left: usize, right: usize },
    RecordCountDiffers { left: usize, right: usize },
    RecordOnlyIn { side: Side, record: usize },
    AreaHeader,
    AreaBytes,
    Record { record: usize },
}

/// An expected finding: its change, the area tag, the two compared blocks (for a one-sided
/// record, the record itself), where those blocks start in each file, and where comparison
/// starts within them.
pub type Item = (Change, Seq<u8>, Seq<u8>, Seq<u8>, int, int, int);

/// The bytes a record's label is read from: its first 16, or all of a shorter record.
pub open spec fn label_bytes(rec: Seq<u8>) -> Seq<u8> {
    rec.subrange(
        0,
        if rec.len() < 16 {
            rec.len() as int
        } else {
            16
        },
    )
}

/// Whether finding `f` reports the expected finding `e`.
pub open spec fn shows(f: Finding, e: Item) -> bool {
    let (c, tag, l, r, lat, rat, from) = e;
    &&& finding_tag(f)@ == field_text(tag)
    &&& match c {
        Change::AreaOnlyIn { side, size, records } => (f matches Finding::AreaOnlyIn {
            side: s,
            size: z,
            records: n,
            ..
        } && s == side && z == size && n == records),
        Change::RecordSizeDiffers { left, right } => (f matches Finding::RecordSizeDiffers {
            left: a,
            right: b,
            ..
        } && a == left && b == right),
        Change::RecordCountDiffers { left, right } => (f matches Finding::RecordCountDiffers {
            left: a,
            right: b,
            ..
        } && a == left && b == right),
        Change::RecordOnlyIn { side, record } => (f matches Finding::RecordOnlyIn {
            side: s,
            record: k,
            name,
            ..
        } && s == side && k == record && name@ == field_text(label_bytes(l))),
        Change::AreaHeader => (f matches Finding::AreaHeader { runs, .. } && runs_of(
            runs@,
            l,
            r,
            lat,
            rat,
            from,
        )),
        Change::AreaBytes => (f matches Finding::AreaBytes { runs, .. } && runs_of(
            runs@,
            l,
            r,
            lat,
            rat,
            from,
        )),
        Change::Record { record } => (f matches Finding::Record { record: k, runs, .. } && k
            == record && runs_of(runs@, l, r, lat, rat, from)),
    }
}

/// Whether each finding of `v` reports the expected finding at its position in `items`.
pub open spec fn all_show(v: Seq<Finding>, items: Seq<Item>) -> bool {
    &&& v.len() == items.len()
    &&& forall|k: int| 0 <= k < v.len() ==> shows(#[trigger] v[k], items[k])
}

/// The bytes of `a` within file `s`.
pub open spec fn block(s: Seq<u8>, a: Area) -> Seq<u8> {
    s.subrange(a.offset as int, a.offset + a.size)
}

/// The error for an area whose range leaves a file of `len` bytes.
pub open spec fn beyond(a: Area, len: int) -> Error {
    Error::AreaBeyondFile {
        tag: a.tag,
        start: a.offset as usize,
        end: (a.offset + a.size) as usize,
        file_len: len as usize,
    }
}

/// The header of a record-table body: its first 16 bytes, or all of a shorter body.
pub open spec fn header_of(b: Seq<u8>) -> Seq<u8> {
    b.subrange(
        0,
        if b.len() < 16 {
            b.len() as int
        } else {
            16
        },
    )
}

/// Record `k` of a record-table body.
pub open spec fn record_of(b: Seq<u8>, k: int) -> Seq<u8> {
    let rs = le32(b, 4) as int;
    b.subrange(data_start(b) + k * rs, data_start(b) + (k + 1) * rs)
}

/// Two areas compared byte for byte: one finding when anything differs or the sizes do.
pub open spec fn bytes_items(tag: Seq<u8>, lb: Seq<u8>, rb: Seq<u8>, lat: int, rat: int) -> Seq<
    Item,
> {
    if has_diff(lb, rb, 0) || lb.len() != rb.len() {
        seq![(Change::AreaBytes, tag, lb, rb, lat, rat, 0)]
    } else {
        Seq::empty()
    }
}

/// The first `n` shared records of two record tables whose bytes differ.
pub open spec fn record_items(tag: Seq<u8>, la: Area, lb: Seq<u8>, ra: Area, rb: Seq<u8>, n: int) -> Seq<
    Item,
>
    decreases n,
{
    if n <= 0 {
        Seq::empty()
    } else {
        let k = n - 1;
        let rest = record_items(tag, la, lb, ra, rb, k);
        let l = record_of(lb, k);
        let r = record_of(rb, k);
        if has_diff(l, r, 0) {
            rest.push(
                (
                    Change::Record { record: k as usize },
                    tag,
                    l,
                    r,
                    la.offset + data_start(lb) + k * le32(lb, 4),
                    ra.offset + data_start(rb) + k * le32(rb, 4),
                    0,
                ),
            )
        } else {
            rest
        }
    }
}

/// The records `from..n` of one side's table, reported as present on that side only.
pub open spec fn one_sided(tag: Seq<u8>, side: Side, b: Seq<u8>, from: int, n: int) -> Seq<Item> {
    Seq::new(
        (n - from) as nat,
        |k: int|
            (
                Change::RecordOnlyIn { side, record: (from + k) as usize },
                tag,
                record_of(b, from + k),
                record_of(b, from + k),
                0,
                0,
                0,
            ),
    )
}

/// Two record tables of the same area compared: record size first, then the header past its
/// count and size, the record counts, each shared record, and the records only one side has.
pub open spec fn table_items(tag: Seq<u8>, la: Area, lb: Seq<u8>, ra: Area, rb: Seq<u8>) -> Seq<Item> {
    if le32(lb, 4) != le32(rb, 4) {
        seq![
            (
                Change::RecordSizeDiffers {
                    left: le32(lb, 4) as usize,
                    right: le32(rb, 4) as usize,
                },
                tag,
                lb,
                rb,
                0,
                0,
                0,
            ),
        ]
    } else {
        let lh = header_of(lb);
        let rh = header_of(rb);
        let head = if has_diff(lh, rh, STRUCTURAL_HEADER_LEN as int) {
            seq![
                (
                    Change::AreaHeader,
                    tag,
                    lh,
                    rh,
                    la.offset as int,
                    ra.offset as int,
                    STRUCTURAL_HEADER_LEN as int,
                ),
            ]
        } else {
            Seq::empty()
        };
        let nl = whole_records(lb) as int;
        let nr = whole_records(rb) as int;
        let count = if nl != nr {
            seq![
                (
                    Change::RecordCountDiffers { left: nl as usize, right: nr as usize },
                    tag,
                    lb,
                    rb,
                    0,
                    0,
                    0,
                ),
            ]
        } else {
            Seq::empty()
        };
        let shared = if nl < nr {
            nl
        } else {
            nr
        };
        head + count + record_items(tag, la, lb, ra, rb, shared) + one_sided(
            tag,
            Side::Left,
            lb,
            shared,
            nl,
        ) + one_sided(tag, Side::Right, rb, shared, nr)
    }
}

/// What comparing the left file's area `la` against the right file reports, or the error for an
/// area that leaves its file.
pub open spec fn left_area_items(l: Seq<u8>, r: Seq<u8>, rareas: Seq<Area>, la: Area) -> Result<
    Seq<Item>,
> {
    let tag = la.tag@;
    if !fits(la, l.len()) {
        Err(beyond(la, l.len() as int))
    } else {
        let lb = block(l, la);
        match first_area(rareas, tag) {
            None => if table_error(la.tag, lb) is Some {
                Ok(Seq::empty())
            } else {
                Ok(
                    seq![
                        (
                            Change::AreaOnlyIn {
                                side: Side::Left,
                                size: la.size,
                                records: whole_records(lb) as usize,
                            },
                            tag,
                            lb,
                            lb,
                            0,
                            0,
                            0,
                        ),
                    ],
                )
            },
            Some(j) => {
                let ra = rareas[j];
                if !fits(ra, r.len()) {
                    Err(beyond(ra, r.len() as int))
                } else {
                    let rb = block(r, ra);
                    if table_error(la.tag, lb) is Some || table_error(ra.tag, rb) is Some {
                        Ok(bytes_items(tag, lb, rb, la.offset as int, ra.offset as int))
                    } else {
                        Ok(table_items(tag, la, lb, ra, rb))
                    }
                }
            },
        }
    }
}

/// What the first `n` areas of the left file report, in order, or the first error.
pub open spec fn left_items(l: Seq<u8>, r: Seq<u8>, lareas: Seq<Area>, rareas: Seq<Area>, n: int) -> Result<
    Seq<Item>,
>
    decreases n,
{
    if n <= 0 {
        Ok(Seq::empty())
    } else {
        match left_items(l, r, lareas, rareas, n - 1) {
            Err(e) => Err(e),
            Ok(v) => match left_area_items(l, r, rareas, lareas[n - 1]) {
                Err(e) => Err(e),
                Ok(w) => Ok(v + w),
            },
        }
    }
}

/// Whether some area of `areas` is tagged `tag`.
pub open spec fn tag_among(areas: Seq<Area>, tag: Seq<u8>) -> bool {
    exists|i: int| 0 <= i < areas.len() && (#[trigger] areas[i]).tag@ == tag
}

/// What the first `n` areas of the right file report as present there only.
pub open spec fn right_items(r: Seq<u8>, lareas: Seq<Area>, rareas: Seq<Area>, n: int) -> Result<
    Seq<Item>,
>
    decreases n,
{
    if n <= 0 {
        Ok(Seq::empty())
    } else {
        match right_items(r, lareas, rareas, n - 1) {
            Err(e) => Err(e),
            Ok(v) => {
                let a = rareas[n - 1];
                if tag_among(lareas, a.tag@) {
                    Ok(v)
                } else if !fits(a, r.len()) {
                    Err(beyond(a, r.len() as int))
                } else {
                    let b = block(r, a);
                    let records = if table_error(a.tag, b) is None {
                        whole_records(b)
                    } else {
                        0
                    };
                    Ok(
                        v.push(
                            (
                                Change::AreaOnlyIn {
                                    side: Side::Right,
                                    size: a.size,
                                    records: records as usize,
                                },
                                a.tag@,
                                b,
                                b,
                                0,
                                0,
                                0,
                            ),
                        ),
                    )
                }
            },
        }
    }
}

/// Everything comparing file `l` (areas `lareas`) with file `r` (areas `rareas`) reports: each
/// left area in order, then the areas only the right file has, in its order.
pub open spec fn comparison(l: Seq<u8>, r: Seq<u8>, lareas: Seq<Area>, rareas: Seq<Area>) -> Result<
    Seq<Item>,
> {
    match left_items(l, r, lareas, rareas, lareas.len() as int) {
        Err(e) => Err(e),
        Ok(v) => match right_items(r, lareas, rareas, rareas.len() as int) {
            Err(e) => Err(e),
            Ok(w) => Ok(v + w),
        },
    }
}

pub proof fn lemma_all_show_concat(a: Seq<Finding>, x: Seq<Item>, b: Seq<Finding>, y: Seq<Item>)
    requires
        all_show(a, x),
        all_show(b, y),
    ensures
        all_show(a + b, x + y),
{
    assert forall|k: int| 0 <= k < (a + b).len() implies shows(#[trigger] (a + b)[k], (x + y)[k]) by {
        if k < a.len() {
            assert((a + b)[k] == a[k]);
            assert((x + y)[k] == x[k]);
        } else {
            assert((a + b)[k] == b[k - a.len()]);
            assert((x + y)[k] == y[k - x.len()]);
        }
    }
}

/// A record's leading 16 bytes as text, for labelling one-sided records. Most areas start a
/// record with its name; the ones that do not simply produce an unhelpful label.
fn record_label(table: &RecordTable, index: usize) -> (s: String)
    requires
        table.wf(),
        index < table.spec_len(),
    ensures
        s@ == field_text(label_bytes(table.spec_record(index as int))),
{
    let rec = table.record(index).unwrap();
    let n = if rec.len() < 16 {
        rec.len()
    } else {
        16
    };
    ascii_trim(vstd::slice::slice_subrange(rec, 0, n))
}

proof fn lemma_record_place(info: int, k: int, rs: int, len: int, offset: int)
    requires
        0 <= k,
        0 < rs,
        0 <= info,
        info + (k + 1) * rs <= len,
        offset + len <= usize::MAX,
        0 <= offset,
    ensures
        offset + info + k * rs + rs <= usize::MAX,
        k * rs + rs == (k + 1) * rs,
        0 <= k * rs,
{
    assert(k * rs + rs == (k + 1) * rs) by (nonlinear_arith);
    assert(0 <= k * rs) by (nonlinear_arith)
        requires
            0 <= k,
            0 < rs,
    ;
}

fn table_findings(tag: &String, la: &Area, lt: &RecordTable, ra: &Area, rt: &RecordTable) -> (v: Vec<
    Finding,
>)
    requires
        lt.wf(),
        rt.wf(),
        lt.reads(*la, lt.body()),
        rt.reads(*ra, rt.body()),
        la.offset + lt.body().len() <= usize::MAX,
        ra.offset + rt.body().len() <= usize::MAX,
        tag@ == field_text(la.tag@),
    ensures
        all_show(v@, table_items(la.tag@, *la, lt.body(), *ra, rt.body())),
{
    let ghost lb = lt.body();
    let ghost rb = rt.body();
    let ghost t = la.tag@;
    let mut out: Vec<Finding> = Vec::new();
    if lt.record_size != rt.record_size {
        out.push(
            Finding::RecordSizeDiffers {
                tag: tag.clone(),
                left: lt.record_size,
                right: rt.record_size,
            },
        );
        return out;
    }
    let hruns = runs_between_from(
        lt.header(),
        rt.header(),
        lt.area_offset,
        rt.area_offset,
        STRUCTURAL_HEADER_LEN,
    );
    proof {
        lemma_runs_empty(hruns@, header_of(lb), header_of(rb), la.offset as int, ra.offset as int, 8);
    }
    if hruns.len() > 0 {
        out.push(Finding::AreaHeader { tag: tag.clone(), runs: hruns });
    }
    let nl = lt.len();
    let nr = rt.len();
    if nl != nr {
        out.push(Finding::RecordCountDiffers { tag: tag.clone(), left: nl, right: nr });
    }
    let ghost head = if has_diff(header_of(lb), header_of(rb), STRUCTURAL_HEADER_LEN as int) {
        seq![
            (
                Change::AreaHeader,
                t,
                header_of(lb),
                header_of(rb),
                la.offset as int,
                ra.offset as int,
                STRUCTURAL_HEADER_LEN as int,
            ),
        ]
    } else {
        Seq::<Item>::empty()
    };
    let ghost count = if nl != nr {
        seq![
            (
                Change::RecordCountDiffers { left: nl, right: nr },
                t,
                lb,
                rb,
                0int,
                0int,
                0int,
            ),
        ]
    } else {
        Seq::<Item>::empty()
    };
    assert(all_show(out@, head + count));
    let shared = if nl < nr {
        nl
    } else {
        nr
    };
    let rs = lt.record_size;
    let mut k: usize = 0;
    while k < shared
        invariant
            lt.wf(),
            rt.wf(),
            lt.reads(*la, lb),
            rt.reads(*ra, rb),
            lb == lt.body(),
            rb == rt.body(),
            rs == lt.record_size,
            rs == rt.record_size,
            la.offset + lb.len() <= usize::MAX,
            ra.offset + rb.len() <= usize::MAX,
            tag@ == field_text(t),
            t == la.tag@,
            nl == lt.spec_len(),
            nr == rt.spec_len(),
            shared <= nl,
            shared <= nr,
            k <= shared,
            all_show(out@, head + count + record_items(t, *la, lb, *ra, rb, k as int)),
        decreases shared - k,
    {
        let l = lt.record(k).unwrap();
        let r = rt.record(k).unwrap();
        proof {
            lemma_record_place(lt.info_len as int, k as int, rs as int, lb.len() as int, la.offset as int);
            lemma_record_place(rt.info_len as int, k as int, rs as int, rb.len() as int, ra.offset as int);
        }
        let runs = runs_between_from(l, r, lt.record_offset(k), rt.record_offset(k), 0);
        proof {
            lemma_runs_empty(runs@, l@, r@, la.offset + lt.info_len + k * rs, ra.offset + rt.info_len + k * rs, 0);
        }
        let ghost before = out@;
        if runs.len() > 0 {
            out.push(Finding::Record { tag: tag.clone(), record: k, runs });
        }
        proof {
            let prefix = head + count + record_items(t, *la, lb, *ra, rb, k as int);
            let next = head + count + record_items(t, *la, lb, *ra, rb, k + 1);
            if has_diff(l@, r@, 0) {
                assert(next =~= prefix.push(next[next.len() - 1]));
                lemma_all_show_concat(before, prefix, seq![out@[out@.len() - 1]], seq![next[next.len() - 1]]);
                assert(before + seq![out@[out@.len() - 1]] =~= out@);
                assert(prefix + seq![next[next.len() - 1]] =~= next);
            } else {
                assert(next =~= prefix);
            }
        }
        k = k + 1;
    }
    let ghost mid = head + count + record_items(t, *la, lb, *ra, rb, shared as int);
    let mut j: usize = shared;
    while j < nl
        invariant
            lt.wf(),
            lb == lt.body(),
            lt.reads(*la, lb),
            tag@ == field_text(t),
            nl == lt.spec_len(),
            shared <= j <= nl,
            all_show(out@, mid + one_sided(t, Side::Left, lb, shared as int, j as int)),
        decreases nl - j,
    {
        let name = record_label(lt, j);
        let ghost before = out@;
        out.push(Finding::RecordOnlyIn { tag: tag.clone(), side: Side::Left, record: j, name });
        proof {
            let prefix = mid + one_sided(t, Side::Left, lb, shared as int, j as int);
            let next = mid + one_sided(t, Side::Left, lb, shared as int, j + 1);
            assert(next =~= prefix.push(next[next.len() - 1]));
            lemma_all_show_concat(before, prefix, seq![out@[out@.len() - 1]], seq![next[next.len() - 1]]);
            assert(before + seq![out@[out@.len() - 1]] =~= out@);
            assert(prefix + seq![next[next.len() - 1]] =~= next);
        }
        j = j + 1;
    }
    let ghost mid2 = mid + one_sided(t, Side::Left, lb, shared as int, nl as int);
    let mut j: usize = shared;
    while j < nr
        invariant
            rt.wf(),
            rb == rt.body(),
            rt.reads(*ra, rb),
            tag@ == field_text(t),
            nr == rt.spec_len(),
            shared <= j <= nr,
            all_show(out@, mid2 + one_sided(t, Side::Right, rb, shared as int, j as int)),
        decreases nr - j,
    {
        let name = record_label(rt, j);
        let ghost before = out@;
        out.push(Finding::RecordOnlyIn { tag: tag.clone(), side: Side::Right, record: j, name });
        proof {
            let prefix = mid2 + one_sided(t, Side::Right, rb, shared as int, j as int);
            let next = mid2 + one_sided(t, Side::Right, rb, shared as int, j + 1);
            assert(next =~= prefix.push(next[next.len() - 1]));
            lemma_all_show_concat(before, prefix, seq![out@[out@.len() - 1]], seq![next[next.len() - 1]]);
            assert(before + seq![out@[out@.len() - 1]] =~= out@);
            assert(prefix + seq![next[next.len() - 1]] =~= next);
        }
        j = j + 1;
    }
    out
}

fn area_findings(left: &Raw, right: &Raw, lsvd: &Svd, rsvd: &Svd, area: &Area) -> (r: Result<
    Vec<Finding>,
>)
    ensures
        match left_area_items(left@, right@, rsvd.areas@, *area) {
            Ok(items) => r matches Ok(v) && all_show(v@, items),
            Err(e) => r == Err::<Vec<Finding>, Error>(e),
        },
{
    let llen = left.len();
    let rlen = right.len();
    proof {
        lemma_first_area(rsvd.areas@, area.tag@);
    }
    let tag = area.tag_str();
    let lb = lsvd.area_bytes(left, area)?;
    let lt = RecordTable::parse(area, lb);
    let mut out: Vec<Finding> = Vec::new();
    let ra = match rsvd.area(&area.tag) {
        None => {
            if let Ok(t) = lt {
                out.push(
                    Finding::AreaOnlyIn { tag, side: Side::Left, size: area.size, records: t.len() },
                );
            }
            return Ok(out);
        },
        Some(a) => a,
    };
    let rb = rsvd.area_bytes(right, ra)?;
    let rt = RecordTable::parse(ra, rb);
    if let Ok(lt) = lt {
        if let Ok(rt) = rt {
            let v = table_findings(&tag, area, &lt, ra, &rt);
            return Ok(v);
        }
    }
    let runs = runs_between_from(lb, rb, area.offset as usize, ra.offset as usize, 0);
    proof {
        lemma_runs_empty(runs@, lb@, rb@, area.offset as int, ra.offset as int, 0);
    }
    if runs.len() > 0 || lb.len() != rb.len() {
        out.push(Finding::AreaBytes { tag, runs });
    }
    Ok(out)
}

/// Whether some area of `areas` carries `tag`.
fn has_tag(areas: &Vec<Area>, tag: &[u8; 4]) -> (r: bool)
    ensures
        r == tag_among(areas@, tag@),
{
    let mut i: usize = 0;
    while i < areas.len()
        invariant
            i <= areas@.len(),
            forall|j: int| 0 <= j < i ==> (#[trigger] areas@[j]).tag@ != tag@,
        decreases areas@.len() - i,
    {
        if crate::bytes::same_tag(&areas[i].tag, tag) {
            assert(areas@[i as int].tag@ == tag@);
            return true;
        }
        i = i + 1;
    }
    false
}

proof fn lemma_left_items_err(l: Seq<u8>, r: Seq<u8>, la: Seq<Area>, ra: Seq<Area>, k: int, n: int)
    requires
        0 <= k <= n,
        left_items(l, r, la, ra, k) is Err,
    ensures
        left_items(l, r, la, ra, n) == left_items(l, r, la, ra, k),
    decreases n - k,
{
    if k < n {
        lemma_left_items_err(l, r, la, ra, k, n - 1);
    }
}

proof fn lemma_right_items_err(r: Seq<u8>, la: Seq<Area>, ra: Seq<Area>, k: int, n: int)
    requires
        0 <= k <= n,
        right_items(r, la, ra, k) is Err,
    ensures
        right_items(r, la, ra, n) == right_items(r, la, ra, k),
    decreases n - k,
{
    if k < n {
        lemma_right_items_err(r, la, ra, k, n - 1);
    }
}

/// A file's parsed area table is the one its bytes hold: two parses of one file agree.
pub proof fn lemma_areas_unique(a: Svd, b: Svd, s: Seq<u8>)
    requires
        parses_as(a, s),
        parses_as(b, s),
    ensures
        a.areas@ == b.areas@,
{
    assert forall|i: int| 0 <= i < a.areas@.len() implies a.areas@[i] == b.areas@[i] by {
        let x = a.areas@[i];
        let y = b.areas@[i];
        assert(is_entry(x, s, PREAMBLE_LEN + 16 * i));
        assert(is_entry(y, s, PREAMBLE_LEN + 16 * i));
        assert(x.tag =~= y.tag);
        assert(x.format =~= y.format);
    }
    assert(a.areas@ =~= b.areas@);
}

/// Compare two SVD files, aligning them by area and record.
///
/// Areas are matched by tag and records by index — the alignment the format itself implies. A
/// capture pair that differs by one edit therefore reports one run, wherever the edit landed and
/// whatever else changed size around it. An area that is not a record table on either side is
/// compared byte for byte instead of aborting the comparison.
pub fn compare(left: &Raw, right: &Raw) -> (r: Result<Vec<Finding>>)
    ensures
        envelope_error(left@) is Some ==> r is Err,
        envelope_error(right@) is Some ==> r is Err,
        forall|ls: Svd, rs: Svd|
            #[trigger] parses_as(ls, left@) && #[trigger] parses_as(rs, right@) ==> match comparison(
                left@,
                right@,
                ls.areas@,
                rs.areas@,
            ) {
                Ok(items) => r matches Ok(v) && all_show(v@, items),
                Err(e) => r == Err::<Vec<Finding>, Error>(e),
            },
{
    let lsvd = Svd::parse(left)?;
    let rsvd = Svd::parse(right)?;
    let ghost la = lsvd.areas@;
    let ghost ra = rsvd.areas@;
    proof {
        assert forall|ls: Svd| #[trigger] parses_as(ls, left@) implies ls.areas@ == la by {
            lemma_areas_unique(ls, lsvd, left@);
        }
        assert forall|rs: Svd| #[trigger] parses_as(rs, right@) implies rs.areas@ == ra by {
            lemma_areas_unique(rs, rsvd, right@);
        }
    }
    let mut findings: Vec<Finding> = Vec::new();
    let mut i: usize = 0;
    while i < lsvd.areas.len()
        invariant
            la == lsvd.areas@,
            ra == rsvd.areas@,
            forall|ls: Svd| #[trigger] parses_as(ls, left@) ==> ls.areas@ == la,
            forall|rs: Svd| #[trigger] parses_as(rs, right@) ==> rs.areas@ == ra,
            i <= la.len(),
            left_items(left@, right@, la, ra, i as int) matches Ok(v) && all_show(findings@, v),
        decreases la.len() - i,
    {
        let ghost before = findings@;
        let ghost prev = left_items(left@, right@, la, ra, i as int)->Ok_0;
        let mut part = area_findings(left, right, &lsvd, &rsvd, &lsvd.areas[i]);
        let mut part = match part {
            Ok(p) => p,
            Err(e) => {
                proof {
                    lemma_left_items_err(left@, right@, la, ra, i + 1, la.len() as int);
                }
                return Err(e);
            },
        };
        let ghost w = left_area_items(left@, right@, ra, la[i as int])->Ok_0;
        let ghost pv = part@;
        findings.append(&mut part);
        proof {
            lemma_all_show_concat(before, prev, pv, w);
        }
        i = i + 1;
    }
    let ghost lv = left_items(left@, right@, la, ra, la.len() as int)->Ok_0;
    let mut j: usize = 0;
    while j < rsvd.areas.len()
        invariant
            la == lsvd.areas@,
            ra == rsvd.areas@,
            forall|ls: Svd| #[trigger] parses_as(ls, left@) ==> ls.areas@ == la,
            forall|rs: Svd| #[trigger] parses_as(rs, right@) ==> rs.areas@ == ra,
            left_items(left@, right@, la, ra, la.len() as int) == Ok::<Seq<Item>, Error>(lv),
            j <= ra.len(),
            right_items(right@, la, ra, j as int) matches Ok(w) && all_show(findings@, lv + w),
        decreases ra.len() - j,
    {
        let area = &rsvd.areas[j];
        let ghost w = right_items(right@, la, ra, j as int)->Ok_0;
        if !has_tag(&lsvd.areas, &area.tag) {
            let rb = match rsvd.area_bytes(right, area) {
                Ok(b) => b,
                Err(e) => {
                    proof {
                        lemma_right_items_err(right@, la, ra, j + 1, ra.len() as int);
                    }
                    return Err(e);
                },
            };
            let records = match RecordTable::parse(area, rb) {
                Ok(t) => t.len(),
                Err(_) => 0,
            };
            let ghost before = findings@;
            findings.push(
                Finding::AreaOnlyIn { tag: area.tag_str(), side: Side::Right, size: area.size, records },
            );
            proof {
                let next = right_items(right@, la, ra, j + 1)->Ok_0;
                assert(next == w.push(next[next.len() - 1]));
                lemma_all_show_concat(before, lv + w, seq![findings@[findings@.len() - 1]], seq![next[next.len() - 1]]);
                assert(before + seq![findings@[findings@.len() - 1]] =~= findings@);
                assert(lv + w + seq![next[next.len() - 1]] =~= lv + next);
            }
        }
        j = j + 1;
    }
    Ok(findings)
}

proof fn lemma_no_diff(b: Seq<u8>, from: int)
    ensures
        !has_diff(b, b, from),
{
    assert forall|i: int| from <= i implies !#[trigger] differs_at(b, b, i) by {}
}

proof fn lemma_same_records(tag: Seq<u8>, a: Area, b: Seq<u8>, n: int)
    ensures
        record_items(tag, a, b, a, b, n) == Seq::<Item>::empty(),
    decreases n,
{
    if n > 0 {
        lemma_same_records(tag, a, b, n - 1);
        lemma_no_diff(record_of(b, n - 1), 0);
    }
}

proof fn lemma_same_area(s: Seq<u8>, areas: Seq<Area>, i: int)
    requires
        0 <= i < areas.len(),
        forall|x: int, y: int|
            0 <= x < areas.len() && 0 <= y < areas.len() && (#[trigger] areas[x]).tag@ == (
            #[trigger] areas[y]).tag@ ==> x == y,
    ensures
        left_area_items(s, s, areas, areas[i]) matches Ok(v) ==> v.len() == 0,
        fits(areas[i], s.len()) ==> left_area_items(s, s, areas, areas[i]) is Ok,
{
    let a = areas[i];
    lemma_first_area(areas, a.tag@);
    if let Some(j) = first_area(areas, a.tag@) {
        assert(j == i);
    }
    if fits(a, s.len()) {
        let b = block(s, a);
        lemma_no_diff(b, 0);
        lemma_no_diff(header_of(b), STRUCTURAL_HEADER_LEN as int);
        lemma_same_records(a.tag@, a, b, whole_records(b) as int);
        assert(one_sided(a.tag@, Side::Left, b, whole_records(b) as int, whole_records(b) as int)
            =~= Seq::<Item>::empty());
        assert(one_sided(a.tag@, Side::Right, b, whole_records(b) as int, whole_records(b) as int)
            =~= Seq::<Item>::empty());
    }
}

proof fn lemma_same_left(s: Seq<u8>, areas: Seq<Area>, n: int)
    requires
        0 <= n <= areas.len(),
        forall|x: int, y: int|
            0 <= x < areas.len() && 0 <= y < areas.len() && (#[trigger] areas[x]).tag@ == (
            #[trigger] areas[y]).tag@ ==> x == y,
    ensures
        left_items(s, s, areas, areas, n) matches Ok(v) ==> v.len() == 0,
        (forall|k: int| 0 <= k < n ==> fits(#[trigger] areas[k], s.len())) ==> left_items(s, s, areas, areas, n) is Ok,
    decreases n,
{
    if n > 0 {
        lemma_same_left(s, areas, n - 1);
        lemma_same_area(s, areas, n - 1);
    }
}

proof fn lemma_same_right(s: Seq<u8>, areas: Seq<Area>, n: int)
    requires
        0 <= n <= areas.len(),
    ensures
        right_items(s, areas, areas, n) == Ok::<Seq<Item>, Error>(Seq::empty()),
    decreases n,
{
    if n > 0 {
        lemma_same_right(s, areas, n - 1);
        assert(tag_among(areas, areas[n - 1].tag@));
    }
}

/// Comparing a file with itself reports nothing: every area is matched with itself and agrees
/// byte for byte and record for record, and when every area lies inside the file the comparison
/// succeeds. This holds of every file whose areas carry distinct tags (an area whose tag repeats
/// is matched with the first area carrying it).
pub proof fn law_identical_files_report_nothing(s: Seq<u8>, areas: Seq<Area>)
    requires
        forall|x: int, y: int|
            0 <= x < areas.len() && 0 <= y < areas.len() && (#[trigger] areas[x]).tag@ == (
            #[trigger] areas[y]).tag@ ==> x == y,
    ensures
        comparison(s, s, areas, areas) matches Ok(v) ==> v.len() == 0,
        (forall|i: int| 0 <= i < areas.len() ==> fits(#[trigger] areas[i], s.len())) ==> comparison(
            s,
            s,
            areas,
            areas,
        ) == Ok::<Seq<Item>, Error>(Seq::empty()),
{
    lemma_same_left(s, areas, areas.len() as int);
    lemma_same_right(s, areas, areas.len() as int);
}


proof fn lemma_record_items_shared(tag: Seq<u8>, la: Area, lb: Seq<u8>, ra: Area, rb: Seq<u8>, n: int)
    ensures
        forall|i: int|
            0 <= i < record_items(tag, la, lb, ra, rb, n).len() ==> (#[trigger] record_items(tag, la, lb, ra, rb, n)[i]).0 is Record,
    decreases n,
{
    if n > 0 {
        lemma_record_items_shared(tag, la, lb, ra, rb, n - 1);
    }
}

proof fn lemma_whole_records_fit(b: Seq<u8>)
    requires
        b.len() >= 8,
        le32(b, 4) != 0,
    ensures
        whole_records(b) <= b.len(),
{
    let ds = data_start(b) as int;
    let rs = le32(b, 4) as int;
    let body = if b.len() >= ds { b.len() - ds } else { 0 };
    assert(body / rs <= body) by (nonlinear_arith)
        requires
            rs >= 1,
            body >= 0,
    ;
}

/// A record only one file holds is reported with the side that holds it: comparing two record
/// tables, a record past the shared count is reported as the left file's exactly when the left
/// table has it and the right does not (its index is below the left's whole-record count and at
/// or above the right's), as the right file's exactly in the mirror case, and the record shown
/// is that file's record.
pub proof fn law_one_sided_records_name_their_side(tag: Seq<u8>, la: Area, lb: Seq<u8>, ra: Area, rb: Seq<u8>, i: int)
    requires
        table_error(la.tag, lb) is None,
        table_error(ra.tag, rb) is None,
        lb.len() <= usize::MAX,
        rb.len() <= usize::MAX,
        0 <= i < table_items(tag, la, lb, ra, rb).len(),
    ensures
        (table_items(tag, la, lb, ra, rb)[i].0 matches Change::RecordOnlyIn { side, record } ==> {
            &&& (side == Side::Left <==> whole_records(rb) <= record < whole_records(lb))
            &&& (side == Side::Right <==> whole_records(lb) <= record < whole_records(rb))
            &&& side == Side::Left ==> table_items(tag, la, lb, ra, rb)[i].2 == record_of(lb, record as int)
            &&& side == Side::Right ==> table_items(tag, la, lb, ra, rb)[i].2 == record_of(rb, record as int)
            &&& table_items(tag, la, lb, ra, rb)[i].1 == tag
        }),
{
    let items = table_items(tag, la, lb, ra, rb);
    lemma_whole_records_fit(lb);
    lemma_whole_records_fit(rb);
    if le32(lb, 4) == le32(rb, 4) {
        let lh = header_of(lb);
        let rh = header_of(rb);
        let head = if has_diff(lh, rh, STRUCTURAL_HEADER_LEN as int) {
            seq![(Change::AreaHeader, tag, lh, rh, la.offset as int, ra.offset as int, STRUCTURAL_HEADER_LEN as int)]
        } else {
            Seq::empty()
        };
        let nl = whole_records(lb) as int;
        let nr = whole_records(rb) as int;
        let count = if nl != nr {
            seq![(Change::RecordCountDiffers { left: nl as usize, right: nr as usize }, tag, lb, rb, 0, 0, 0)]
        } else {
            Seq::empty()
        };
        let shared = if nl < nr {
            nl
        } else {
            nr
        };
        let ri = record_items(tag, la, lb, ra, rb, shared);
        let ol = one_sided(tag, Side::Left, lb, shared, nl);
        let or = one_sided(tag, Side::Right, rb, shared, nr);
        assert(items == head + count + ri + ol + or);
        lemma_record_items_shared(tag, la, lb, ra, rb, shared);
        let base = head.len() + count.len() + ri.len();
        if i < head.len() + count.len() {
            assert(items[i] == (head + count)[i]);
        } else if i < base {
            assert(items[i] == ri[i - head.len() - count.len()]);
        } else if i < base + ol.len() {
            assert(items[i] == ol[i - base]);
        } else {
            assert(items[i] == or[i - base - ol.len()]);
        }
    }
}

/// Every record only one of two compared tables holds is reported, once per record: for each
/// index at or above the right table's whole-record count and below the left's there is a
/// finding that the left file alone has it, and in the mirror case the right file.
pub proof fn law_every_one_sided_record_is_reported(tag: Seq<u8>, la: Area, lb: Seq<u8>, ra: Area, rb: Seq<u8>, k: int)
    requires
        table_error(la.tag, lb) is None,
        table_error(ra.tag, rb) is None,
        le32(lb, 4) == le32(rb, 4),
        lb.len() <= usize::MAX,
        rb.len() <= usize::MAX,
    ensures
        whole_records(rb) <= k < whole_records(lb) ==> exists|i: int|
            0 <= i < table_items(tag, la, lb, ra, rb).len() && #[trigger] table_items(tag, la, lb, ra, rb)[i].0
                == (Change::RecordOnlyIn { side: Side::Left, record: k as usize }),
        whole_records(lb) <= k < whole_records(rb) ==> exists|i: int|
            0 <= i < table_items(tag, la, lb, ra, rb).len() && #[trigger] table_items(tag, la, lb, ra, rb)[i].0
                == (Change::RecordOnlyIn { side: Side::Right, record: k as usize }),
{
    let items = table_items(tag, la, lb, ra, rb);
    lemma_whole_records_fit(lb);
    lemma_whole_records_fit(rb);
    let lh = header_of(lb);
    let rh = header_of(rb);
    let head = if has_diff(lh, rh, STRUCTURAL_HEADER_LEN as int) {
        seq![(Change::AreaHeader, tag, lh, rh, la.offset as int, ra.offset as int, STRUCTURAL_HEADER_LEN as int)]
    } else {
        Seq::empty()
    };
    let nl = whole_records(lb) as int;
    let nr = whole_records(rb) as int;
    let count = if nl != nr {
        seq![(Change::RecordCountDiffers { left: nl as usize, right: nr as usize }, tag, lb, rb, 0, 0, 0)]
    } else {
        Seq::empty()
    };
    let shared = if nl < nr {
        nl
    } else {
        nr
    };
    let ri = record_items(tag, la, lb, ra, rb, shared);
    let ol = one_sided(tag, Side::Left, lb, shared, nl);
    let or = one_sided(tag, Side::Right, rb, shared, nr);
    assert(items == head + count + ri + ol + or);
    let base = head.len() + count.len() + ri.len();
    if nr <= k < nl {
        let i = base + (k - shared);
        assert(items[i] == ol[k - shared]);
        assert(items[i].0 == (Change::RecordOnlyIn { side: Side::Left, record: k as usize }));
        assert(table_items(tag, la, lb, ra, rb)[i].0 == (Change::RecordOnlyIn { side: Side::Left, record: k as usize }));
    }
    if nl <= k < nr {
        let i = base + ol.len() + (k - shared);
        assert(items[i] == or[k - shared]);
        assert(items[i].0 == (Change::RecordOnlyIn { side: Side::Right, record: k as usize }));
        assert(table_items(tag, la, lb, ra, rb)[i].0 == (Change::RecordOnlyIn { side: Side::Right, record: k as usize }));
    }
}

/// Whether item `it` of comparing file `l` (areas `lareas`) with file `r` (areas `rareas`),
/// when it reports a record only one side has, names the side whose table holds that record:
/// some left area carries its tag, the first right area with that tag is matched with it, and
/// the record lies past the other table's whole records and within its own.
pub open spec fn names_holding_side(l: Seq<u8>, r: Seq<u8>, lareas: Seq<Area>, rareas: Seq<Area>, it: Item) -> bool {
    it.0 matches Change::RecordOnlyIn { side, record } ==> exists|a: int, j: int|
        #![trigger lareas[a], rareas[j]]
        0 <= a < lareas.len() && 0 <= j < rareas.len() && lareas[a].tag@ == it.1 && first_area(rareas, it.1)
            == Some(j) && fits(lareas[a], l.len()) && fits(rareas[j], r.len()) && {
            let lb = block(l, lareas[a]);
            let rb = block(r, rareas[j]);
            &&& (side == Side::Left <==> whole_records(rb) <= record < whole_records(lb))
            &&& (side == Side::Right <==> whole_records(lb) <= record < whole_records(rb))
        }
}

proof fn lemma_left_area_sides(l: Seq<u8>, r: Seq<u8>, lareas: Seq<Area>, rareas: Seq<Area>, a: int)
    requires
        0 <= a < lareas.len(),
        l.len() <= usize::MAX,
        r.len() <= usize::MAX,
    ensures
        left_area_items(l, r, rareas, lareas[a]) matches Ok(v) ==> forall|i: int|
            0 <= i < v.len() ==> names_holding_side(l, r, lareas, rareas, #[trigger] v[i]),
{
    let la = lareas[a];
    let tag = la.tag@;
    if let Ok(v) = left_area_items(l, r, rareas, la) {
        assert forall|i: int| 0 <= i < v.len() implies names_holding_side(l, r, lareas, rareas, #[trigger] v[i]) by {
            if let Some(j) = first_area(rareas, tag) {
                lemma_first_area(rareas, tag);
                let ra = rareas[j];
                let lb = block(l, la);
                let rb = block(r, ra);
                if table_error(la.tag, lb) is None && table_error(ra.tag, rb) is None {
                    assert(v == table_items(tag, la, lb, ra, rb));
                    law_one_sided_records_name_their_side(tag, la, lb, ra, rb, i);
                    if v[i].0 is RecordOnlyIn {
                        assert(lareas[a].tag@ == v[i].1);
                    }
                }
            }
        }
    }
}

proof fn lemma_left_items_sides(l: Seq<u8>, r: Seq<u8>, lareas: Seq<Area>, rareas: Seq<Area>, n: int)
    requires
        0 <= n <= lareas.len(),
        l.len() <= usize::MAX,
        r.len() <= usize::MAX,
    ensures
        left_items(l, r, lareas, rareas, n) matches Ok(v) ==> forall|i: int|
            0 <= i < v.len() ==> names_holding_side(l, r, lareas, rareas, #[trigger] v[i]),
    decreases n,
{
    if n > 0 {
        lemma_left_items_sides(l, r, lareas, rareas, n - 1);
        lemma_left_area_sides(l, r, lareas, rareas, n - 1);
        if let Ok(v) = left_items(l, r, lareas, rareas, n) {
            let p = left_items(l, r, lareas, rareas, n - 1)->Ok_0;
            let w = left_area_items(l, r, rareas, lareas[n - 1])->Ok_0;
            assert(v == p + w);
            assert forall|i: int| 0 <= i < v.len() implies names_holding_side(l, r, lareas, rareas, #[trigger] v[i]) by {
                if i < p.len() {
                    assert(v[i] == p[i]);
                } else {
                    assert(v[i] == w[i - p.len()]);
                }
            }
        }
    }
}

proof fn lemma_right_items_whole_areas(r: Seq<u8>, lareas: Seq<Area>, rareas: Seq<Area>, n: int)
    ensures
        right_items(r, lareas, rareas, n) matches Ok(v) ==> forall|i: int| 0 <= i < v.len() ==> (#[trigger] v[i]).0 is AreaOnlyIn,
    decreases n,
{
    if n > 0 {
        lemma_right_items_whole_areas(r, lareas, rareas, n - 1);
    }
}

/// Comparing two files, every record reported as only one file's is held by that file's table
/// and not the other's: the side of each such finding is the side that actually has the record.
pub proof fn law_compare_names_the_holding_side(l: Seq<u8>, r: Seq<u8>, lareas: Seq<Area>, rareas: Seq<Area>)
    requires
        l.len() <= usize::MAX,
        r.len() <= usize::MAX,
    ensures
        comparison(l, r, lareas, rareas) matches Ok(items) ==> forall|i: int|
            0 <= i < items.len() ==> names_holding_side(l, r, lareas, rareas, #[trigger] items[i]),
{
    lemma_left_items_sides(l, r, lareas, rareas, lareas.len() as int);
    lemma_right_items_whole_areas(r, lareas, rareas, rareas.len() as int);
    if let Ok(items) = comparison(l, r, lareas, rareas) {
        let v = left_items(l, r, lareas, rareas, lareas.len() as int)->Ok_0;
        let w = right_items(r, lareas, rareas, rareas.len() as int)->Ok_0;
        assert(items == v + w);
        assert forall|i: int| 0 <= i < items.len() implies names_holding_side(l, r, lareas, rareas, #[trigger] items[i]) by {
            if i < v.len() {
                assert(items[i] == v[i]);
            } else {
                assert(items[i] == w[i - v.len()]);
            }
        }
    }
}

proof fn lemma_record_inside(b: Seq<u8>, k: int)
    requires
        b.len() >= 8,
        le32(b, 4) != 0,
        0 <= k < whole_records(b),
    ensures
        data_start(b) + (k + 1) * (le32(b, 4) as int) <= b.len(),
        0 <= data_start(b) + k * (le32(b, 4) as int),
{
    let ds = data_start(b) as int;
    let rs = le32(b, 4) as int;
    let body = if b.len() >= ds { b.len() - ds } else { 0 };
    let n = whole_records(b) as int;
    assert(k < body / rs);
    assert((k + 1) * rs <= body) by (nonlinear_arith)
        requires
            0 <= k < body / rs,
            rs > 0,
            body >= 0,
    ;
    if b.len() < ds {
        assert(body / rs == 0);
    }
    assert(0 <= k * rs) by (nonlinear_arith)
        requires
            k >= 0,
            rs > 0,
    ;
}

proof fn lemma_record_items_cover(tag: Seq<u8>, la: Area, lb: Seq<u8>, ra: Area, rb: Seq<u8>, n: int, k: int)
    requires
        0 <= k <= usize::MAX,
        n <= usize::MAX,
    ensures
        (exists|i: int|
            0 <= i < record_items(tag, la, lb, ra, rb, n).len() && #[trigger] record_items(tag, la, lb, ra, rb, n)[i].0
                == (Change::Record { record: k as usize })) <==> (k < n && has_diff(record_of(lb, k), record_of(rb, k), 0)),
    decreases n,
{
    let all = record_items(tag, la, lb, ra, rb, n);
    let c = Change::Record { record: k as usize };
    lemma_record_items_below(tag, la, lb, ra, rb, n);
    if n > 0 {
        lemma_record_items_cover(tag, la, lb, ra, rb, n - 1, k);
        let rest = record_items(tag, la, lb, ra, rb, n - 1);
        let d = has_diff(record_of(lb, n - 1), record_of(rb, n - 1), 0);
        if d {
            assert(all =~= rest.push(all[all.len() - 1]));
        } else {
            assert(all == rest);
        }
        if exists|i: int| 0 <= i < all.len() && #[trigger] all[i].0 == c {
            let i = choose|i: int| 0 <= i < all.len() && #[trigger] all[i].0 == c;
            if i < rest.len() {
                assert(rest[i].0 == c);
            } else {
                assert(d);
                assert(all[i].0 == (Change::Record { record: (n - 1) as usize }));
                assert(k == n - 1);
            }
        }
        if k < n && has_diff(record_of(lb, k), record_of(rb, k), 0) {
            if k < n - 1 {
                let i = choose|i: int| 0 <= i < rest.len() && #[trigger] rest[i].0 == c;
                assert(all[i] == rest[i]);
            } else {
                let i = all.len() - 1;
                assert(all[i].0 == c);
            }
        }
    }
}

proof fn lemma_record_items_below(tag: Seq<u8>, la: Area, lb: Seq<u8>, ra: Area, rb: Seq<u8>, n: int)
    requires
        n <= usize::MAX,
    ensures
        forall|i: int|
            0 <= i < record_items(tag, la, lb, ra, rb, n).len() ==> (#[trigger] record_items(tag, la, lb, ra, rb, n)[i].0 matches Change::Record {
                record,
            } && record < n),
    decreases n,
{
    if n > 0 {
        lemma_record_items_below(tag, la, lb, ra, rb, n - 1);
    }
}

/// Comparing two record tables of the same record size, a record both hold is reported exactly
/// when its bytes differ between the two files.
pub proof fn law_shared_record_reported_when_it_differs(
    tag: Seq<u8>,
    la: Area,
    lb: Seq<u8>,
    ra: Area,
    rb: Seq<u8>,
    k: int,
)
    requires
        table_error(la.tag, lb) is None,
        table_error(ra.tag, rb) is None,
        le32(lb, 4) == le32(rb, 4),
        lb.len() <= usize::MAX,
        rb.len() <= usize::MAX,
        0 <= k < whole_records(lb),
        k < whole_records(rb),
    ensures
        (exists|i: int|
            0 <= i < table_items(tag, la, lb, ra, rb).len() && #[trigger] table_items(tag, la, lb, ra, rb)[i].0
                == (Change::Record { record: k as usize })) <==> record_of(lb, k) != record_of(rb, k),
{
    let items = table_items(tag, la, lb, ra, rb);
    lemma_whole_records_fit(lb);
    lemma_whole_records_fit(rb);
    lemma_record_inside(lb, k);
    lemma_record_inside(rb, k);
    let l = record_of(lb, k);
    let r = record_of(rb, k);
    let rs = le32(lb, 4) as int;
    assert((k + 1) * rs == k * rs + rs) by (nonlinear_arith);
    assert(l.len() == r.len());
    if l != r {
        assert(!(l =~= r));
        let j = choose|j: int| 0 <= j < l.len() && l[j] != r[j];
        assert(differs_at(l, r, j));
    }
    let lh = header_of(lb);
    let rh = header_of(rb);
    let head = if has_diff(lh, rh, STRUCTURAL_HEADER_LEN as int) {
        seq![(Change::AreaHeader, tag, lh, rh, la.offset as int, ra.offset as int, STRUCTURAL_HEADER_LEN as int)]
    } else {
        Seq::empty()
    };
    let nl = whole_records(lb) as int;
    let nr = whole_records(rb) as int;
    let count = if nl != nr {
        seq![(Change::RecordCountDiffers { left: nl as usize, right: nr as usize }, tag, lb, rb, 0, 0, 0)]
    } else {
        Seq::empty()
    };
    let shared = if nl < nr {
        nl
    } else {
        nr
    };
    let ri = record_items(tag, la, lb, ra, rb, shared);
    let ol = one_sided(tag, Side::Left, lb, shared, nl);
    let or = one_sided(tag, Side::Right, rb, shared, nr);
    assert(items == head + count + ri + ol + or);
    lemma_record_items_cover(tag, la, lb, ra, rb, shared, k);
    let base = head.len() + count.len();
    if exists|i: int| 0 <= i < items.len() && #[trigger] items[i].0 == (Change::Record { record: k as usize }) {
        let i = choose|i: int| 0 <= i < items.len() && #[trigger] items[i].0 == (Change::Record { record: k as usize });
        if i < base {
            assert(items[i] == (head + count)[i]);
        } else if i < base + ri.len() {
            assert(items[i] == ri[i - base]);
        } else if i < base + ri.len() + ol.len() {
            assert(items[i] == ol[i - base - ri.len()]);
        } else {
            assert(items[i] == or[i - base - ri.len() - ol.len()]);
        }
    }
    if l != r {
        let i = choose|i: int| 0 <= i < ri.len() && #[trigger] ri[i].0 == (Change::Record { record: k as usize });
        assert(items[base + i] == ri[i]);
        assert(items[base + i].0 == (Change::Record { record: k as usize }));
    }
}

} // verus!
