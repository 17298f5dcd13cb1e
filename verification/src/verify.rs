//! Structural checks on a container: does it hold together, and do its checksums agree?
//!
//! Repackaging rebuilds a file from parts of another; this checks the file itself. What it can
//! prove: every area's declared geometry matches its actual size, and every record whose area
//! carries a CRC-32 still matches it. What it cannot: whether the contents mean what we think —
//! only the instrument can answer that.

use vstd::prelude::*;

use crate::bytes::{le32, read_u32};
use crate::checksum::{crc32, spec_crc32};
use crate::container::records::{data_start, table_error, whole_records, HEADER_LEN};
use crate::container::svd::{envelope_error, fits, parses_as};
use crate::container::{Area, Raw, RecordTable, Svd};
use crate::diff::{beyond, block, record_of};
use crate::text::{decimal, field_text, hex8, push_decimal, push_hex8, push_str};
use crate::{Error, Result};

verus! {

/// Something wrong with a file's structure.
#[derive(Debug, Clone, PartialEq, Eq)]
pub enum Problem {
    /// An area's `info_length + count * record_size` disagrees with its size in the area table.
    AreaSize { tag: String, declared: usize, actual: usize },
    /// A record's stored CRC-32 does not match its bytes.
    Checksum { tag: String, record: usize, stored: u32, computed: u32 },
    /// An area declares more records than its bytes can hold.
    Truncated { tag: String, declared: usize, present: usize },
}

/// A problem's plain values, without the area it was found in.
#[derive(Debug, Clone, Copy, PartialEq, Eq)]
pub enum Fault {
    AreaSize { declared: usize, actual: usize },
    Checksum { record: usize, stored: u32, computed: u32 },
    Truncated { declared: usize, present: usize },
}

/// Whether `p` is fault `f` found in the area tagged `tag`.
pub open spec fn is_problem(p: Problem, tag: Seq<u8>, f: Fault) -> bool {
    match f {
        Fault::AreaSize { declared, actual } => (p matches Problem::AreaSize {
            tag: t,
            declared: d,
            actual: a,
        } && t@ == field_text(tag) && d == declared && a == actual),
        Fault::Checksum { record, stored, computed } => (p matches Problem::Checksum {
            tag: t,
            record: k,
            stored: s,
            computed: c,
        } && t@ == field_text(tag) && k == record && s == stored && c == computed),
        Fault::Truncated { declared, present } => (p matches Problem::Truncated {
            tag: t,
            declared: d,
            present: n,
        } && t@ == field_text(tag) && d == declared && n == present),
    }
}

/// A fault found in the area tagged `tag`, in words.
pub open spec fn fault_text(tag: Seq<u8>, f: Fault) -> Seq<char> {
    match f {
        Fault::AreaSize { declared, actual } => field_text(tag) + ": geometry says "@ + decimal(
            declared as nat,
        ) + " bytes but the area table says "@ + decimal(actual as nat),
        Fault::Checksum { record, stored, computed } => field_text(tag) + "["@ + decimal(record as nat)
            + "]: checksum "@ + hex8(stored) + " does not match its bytes ("@ + hex8(computed) + ")"@,
        Fault::Truncated { declared, present } => field_text(tag) + ": declares "@ + decimal(
            declared as nat,
        ) + " records but only "@ + decimal(present as nat) + " are present"@,
    }
}

/// A problem reads as the fault it reports.
pub proof fn lemma_problem_text(p: Problem, tag: Seq<u8>, f: Fault)
    requires
        is_problem(p, tag, f),
    ensures
        problem_text(p) == fault_text(tag, f),
{
}

/// A problem in words.
pub open spec fn problem_text(p: Problem) -> Seq<char> {
    match p {
        Problem::AreaSize { tag, declared, actual } => tag@ + ": geometry says "@
            + decimal(declared as nat) + " bytes but the area table says "@ + decimal(
            actual as nat,
        ),
        Problem::Checksum { tag, record, stored, computed } => tag@ + "["@ + decimal(
            record as nat,
        ) + "]: checksum "@ + hex8(stored) + " does not match its bytes ("@ + hex8(
            computed,
        ) + ")"@,
        Problem::Truncated { tag, declared, present } => tag@ + ": declares "@ + decimal(
            declared as nat,
        ) + " records but only "@ + decimal(present as nat) + " are present"@,
    }
}

impl Problem {
    /// The problem in words, e.g. `PATa[1]: checksum 12345678 does not match its bytes (9abcdef0)`.
    pub fn message(&self) -> (s: String)
        ensures
            s@ == problem_text(*self),
    {
        let mut s = String::new();
        match self {
            Problem::AreaSize { tag, declared, actual } => {
                push_str(&mut s, tag.as_str());
                push_str(&mut s, ": geometry says ");
                push_decimal(&mut s, *declared as u64);
                push_str(&mut s, " bytes but the area table says ");
                push_decimal(&mut s, *actual as u64);
            },
            Problem::Checksum { tag, record, stored, computed } => {
                push_str(&mut s, tag.as_str());
                push_str(&mut s, "[");
                push_decimal(&mut s, *record as u64);
                push_str(&mut s, "]: checksum ");
                push_hex8(&mut s, *stored);
                push_str(&mut s, " does not match its bytes (");
                push_hex8(&mut s, *computed);
                push_str(&mut s, ")");
            },
            Problem::Truncated { tag, declared, present } => {
                push_str(&mut s, tag.as_str());
                push_str(&mut s, ": declares ");
                push_decimal(&mut s, *declared as u64);
                push_str(&mut s, " records but only ");
                push_decimal(&mut s, *present as u64);
                push_str(&mut s, " are present");
            },
        }
        s
    }
}

/// What a check found.
#[derive(Debug, Clone, PartialEq, Eq)]
pub struct Report {
    /// Records whose checksum was verified (saturating at the largest `usize`).
    pub checked: usize,
    /// Areas that carry per-record checksums.
    pub areas_with_checksums: usize,
    pub problems: Vec<Problem>,
}

impl Report {
    /// Whether the file is structurally sound.
    pub fn is_ok(&self) -> (r: bool)
        ensures
            r == (self.problems@.len() == 0),
    {
        self.problems.len() == 0
    }
}

/// Bytes of per-record info a record-table body declares per declared record.
pub open spec fn info_stride(b: Seq<u8>) -> int {
    if le32(b, 0) == 0 {
        0
    } else {
        (data_start(b) - HEADER_LEN) / (le32(b, 0) as int)
    }
}

/// The CRC-32 stored for record `k` of a checksummed body.
pub open spec fn stored_sum(b: Seq<u8>, k: int) -> u32 {
    le32(b, HEADER_LEN + 4 * k)
}

/// The records among the first `n` of a checksummed body whose bytes disagree with their sum.
pub open spec fn sum_faults(b: Seq<u8>, n: int) -> Seq<Fault>
    decreases n,
{
    if n <= 0 {
        Seq::empty()
    } else {
        let k = n - 1;
        let rest = sum_faults(b, k);
        let stored = stored_sum(b, k);
        let computed = spec_crc32(record_of(b, k));
        if stored != computed {
            rest.push(Fault::Checksum { record: k as usize, stored, computed })
        } else {
            rest
        }
    }
}

/// What checking one record-table body finds: its faults, how many records it checksummed and
/// whether it carries checksums at all.
pub open spec fn body_check(b: Seq<u8>) -> (Seq<Fault>, int, bool) {
    let n = whole_records(b) as int;
    let d = le32(b, 0) as int;
    let rs = le32(b, 4) as int;
    let truncated = if n < d {
        seq![Fault::Truncated { declared: d as usize, present: n as usize }]
    } else {
        Seq::empty()
    };
    let geometry = if d == n && data_start(b) + d * rs != b.len() {
        seq![
            Fault::AreaSize {
                declared: (data_start(b) + d * rs) as usize,
                actual: b.len() as usize,
            },
        ]
    } else {
        Seq::empty()
    };
    if info_stride(b) != 4 {
        (truncated + geometry, 0, false)
    } else {
        (truncated + geometry + sum_faults(b, n), n, true)
    }
}

/// `a + b`, or the largest `usize` when that is smaller.
pub open spec fn saturating(a: int, b: int) -> int {
    if a + b > usize::MAX {
        usize::MAX as int
    } else {
        a + b
    }
}

/// What checking the first `n` areas of file `s` finds: each fault with its area's tag, the
/// records checked, the areas carrying checksums — or the error for an area that leaves the file.
pub open spec fn file_check(s: Seq<u8>, areas: Seq<Area>, n: int) -> Result<
    (Seq<(Seq<u8>, Fault)>, int, int),
>
    decreases n,
{
    if n <= 0 {
        Ok((Seq::empty(), 0, 0))
    } else {
        match file_check(s, areas, n - 1) {
            Err(e) => Err(e),
            Ok((faults, checked, with)) => {
                let a = areas[n - 1];
                if !fits(a, s.len()) {
                    Err(beyond(a, s.len() as int))
                } else {
                    let b = block(s, a);
                    if table_error(a.tag, b) is Some {
                        Ok((faults, checked, with))
                    } else {
                        let (f, c, w) = body_check(b);
                        Ok(
                            (
                                faults + f.map_values(|x: Fault| (a.tag@, x)),
                                saturating(checked, c),
                                if w {
                                    with + 1
                                } else {
                                    with
                                },
                            ),
                        )
                    }
                }
            },
        }
    }
}

/// Whether `r` reports what checking the first `n` areas of file `s` finds.
pub open spec fn reports(r: Report, s: Seq<u8>, areas: Seq<Area>, n: int) -> bool {
    file_check(s, areas, n) matches Ok((faults, checked, with)) && r.checked == checked
        && r.areas_with_checksums == with && r.problems@.len() == faults.len() && forall|k: int|
        0 <= k < faults.len() ==> is_problem(#[trigger] r.problems@[k], faults[k].0, faults[k].1)
}

proof fn lemma_file_check_err(s: Seq<u8>, areas: Seq<Area>, k: int, n: int)
    requires
        0 <= k <= n,
        file_check(s, areas, k) is Err,
    ensures
        file_check(s, areas, n) == file_check(s, areas, k),
    decreases n - k,
{
    if k < n {
        lemma_file_check_err(s, areas, k, n - 1);
    }
}

proof fn lemma_with_bound(s: Seq<u8>, areas: Seq<Area>, n: int)
    requires
        0 <= n,
    ensures
        file_check(s, areas, n) matches Ok((f, c, w)) ==> 0 <= w <= n && 0 <= c <= usize::MAX,
    decreases n,
{
    if n > 0 {
        lemma_with_bound(s, areas, n - 1);
    }
}

/// Check one record table; `report` gains what `body_check` finds in it.
fn check_table(table: &RecordTable, tag: &String, report: &mut Report)
    requires
        table.wf(),
        tag@ == field_text(table.tag@),
        old(report).areas_with_checksums < usize::MAX,
    ensures
        ({
            let (f, c, w) = body_check(table.body());
            &&& final(report).checked == saturating(old(report).checked as int, c)
            &&& final(report).areas_with_checksums == if w {
                old(report).areas_with_checksums + 1
            } else {
                old(report).areas_with_checksums as int
            }
            &&& final(report).problems@.len() == old(report).problems@.len() + f.len()
            &&& forall|k: int|
                0 <= k < old(report).problems@.len() ==> final(report).problems@[k] == old(
                    report,
                ).problems@[k]
            &&& forall|k: int|
                0 <= k < f.len() ==> is_problem(
                    #[trigger] final(report).problems@[old(report).problems@.len() + k],
                    table.tag@,
                    f[k],
                )
        }),
{
    let ghost b = table.body();
    let ghost start = report.problems@;
    let n = table.len();
    let d = table.declared_count;
    if n < d {
        report.problems.push(Problem::Truncated { tag: tag.clone(), declared: d, present: n });
    }
    let ghost truncated = if n < d {
        seq![Fault::Truncated { declared: d, present: n }]
    } else {
        Seq::<Fault>::empty()
    };
    if d == n {
        proof {
            lemma_fit_records(b.len() as int, table.info_len as int, table.record_size as int, n as int);
        }
        let expected = table.info_len + d * table.record_size;
        if expected != table.bytes.len() {
            report.problems.push(
                Problem::AreaSize { tag: tag.clone(), declared: expected, actual: table.bytes.len() },
            );
        }
    }
    let ghost before_sums = report.problems@;
    let ghost geometry = if d == n && data_start(b) + d * (table.record_size as int) != b.len() {
        seq![
            Fault::AreaSize {
                declared: (data_start(b) + d * (table.record_size as int)) as usize,
                actual: b.len() as usize,
            },
        ]
    } else {
        Seq::<Fault>::empty()
    };
    let ghost tg = truncated + geometry;
    proof {
        assert(report.problems@.len() == start.len() + tg.len());
        assert forall|j: int| 0 <= j < tg.len() implies is_problem(
            #[trigger] report.problems@[start.len() + j],
            table.tag@,
            tg[j],
        ) by {
            if j < truncated.len() {
                assert(tg[j] == truncated[j]);
            } else {
                assert(tg[j] == geometry[j - truncated.len()]);
            }
        }
    }
    if table.info_stride() != 4 {
        proof {
            assert(body_check(b).0 =~= tg);
        }
        return;
    }
    report.areas_with_checksums = report.areas_with_checksums + 1;
    let mut k: usize = 0;
    while k < n
        invariant
            table.wf(),
            b == table.body(),
            n == table.spec_len(),
            d == table.declared_count,
            n <= d,
            info_stride(b) == 4,
            tag@ == field_text(table.tag@),
            k <= n,
            report.problems@.len() == before_sums.len() + sum_faults(b, k as int).len(),
            forall|j: int| 0 <= j < before_sums.len() ==> report.problems@[j] == before_sums[j],
            forall|j: int|
                0 <= j < sum_faults(b, k as int).len() ==> is_problem(
                    #[trigger] report.problems@[before_sums.len() + j],
                    table.tag@,
                    sum_faults(b, k as int)[j],
                ),
            report.checked == saturating(old(report).checked as int, k as int),
            report.areas_with_checksums == old(report).areas_with_checksums + 1,
            before_sums.len() == start.len() + tg.len(),
            start == old(report).problems@,
            forall|j: int| 0 <= j < start.len() ==> before_sums[j] == start[j],
            forall|j: int|
                0 <= j < tg.len() ==> is_problem(
                    #[trigger] before_sums[start.len() + j],
                    table.tag@,
                    tg[j],
                ),
            body_check(b).0 == tg + sum_faults(b, n as int),
            body_check(b).1 == n,
        decreases n - k,
    {
        let record = table.record(k).unwrap();
        proof {
            let stride = (table.info_len - HEADER_LEN) / (table.declared_count as int);
            assert(table.declared_count > 0);
            assert(stride == 4);
            assert(k * stride == k * 4);
            assert((k + 1) * stride == (k + 1) * 4);
        }
        let info = table.record_info(k).unwrap();
        let stored = read_u32(info, 0).unwrap();
        proof {
            assert(info@ =~= b.subrange(HEADER_LEN + 4 * k, HEADER_LEN + 4 * k + 4));
            assert(record@ == record_of(b, k as int));
        }
        let computed = crc32(record);
        if report.checked < usize::MAX {
            report.checked = report.checked + 1;
        }
        let ghost before = report.problems@;
        if stored != computed {
            report.problems.push(Problem::Checksum { tag: tag.clone(), record: k, stored, computed });
        }
        proof {
            let next = sum_faults(b, k + 1);
            assert forall|j: int| 0 <= j < next.len() implies is_problem(
                #[trigger] report.problems@[before_sums.len() + j],
                table.tag@,
                next[j],
            ) by {
                if j < sum_faults(b, k as int).len() {
                    assert(report.problems@[before_sums.len() + j] == before[before_sums.len() + j]);
                }
            }
        }
        k = k + 1;
    }
    proof {
        let f = body_check(b).0;
        assert forall|j: int| 0 <= j < f.len() implies is_problem(
            #[trigger] report.problems@[start.len() + j],
            table.tag@,
            f[j],
        ) by {
            if j < tg.len() {
                assert(f[j] == tg[j]);
                assert(report.problems@[start.len() + j] == before_sums[start.len() + j]);
            } else {
                assert(f[j] == sum_faults(b, n as int)[j - tg.len()]);
                assert(report.problems@[start.len() + j] == report.problems@[before_sums.len() + (j
                    - tg.len())]);
            }
        }
    }
}

proof fn lemma_fit_records(total: int, info: int, rs: int, n: int)
    requires
        rs > 0,
        0 <= n,
        info <= total || n == 0,
        n <= (if total >= info { total - info } else { 0 }) / rs,
        total <= usize::MAX,
        0 <= info <= usize::MAX,
    ensures
        info + n * rs <= usize::MAX,
{
    assert(n * rs <= (if total >= info { total - info } else { 0 })) by (nonlinear_arith)
        requires
            rs > 0,
            0 <= n,
            n <= (if total >= info { total - info } else { 0 }) / rs,
    ;
}

/// Check a container's geometry and every record checksum it carries. Areas that are not record
/// tables (a bare `DIFa` blob, say) have nothing to check.
pub fn check(raw: &Raw) -> (r: Result<Report>)
    ensures
        envelope_error(raw@) is Some ==> r is Err,
        forall|svd: Svd| #[trigger] parses_as(svd, raw@) ==> match file_check(
            raw@,
            svd.areas@,
            svd.areas@.len() as int,
        ) {
            Ok(_) => r matches Ok(report) && reports(report, raw@, svd.areas@, svd.areas@.len() as int),
            Err(e) => r == Err::<Report, Error>(e),
        },
{
    let svd = Svd::parse(raw)?;
    let ghost areas = svd.areas@;
    proof {
        assert forall|other: Svd| #[trigger] parses_as(other, raw@) implies other.areas@ == areas by {
            crate::diff::lemma_areas_unique(other, svd, raw@);
        }
    }
    let mut report = Report { checked: 0, areas_with_checksums: 0, problems: Vec::new() };
    let mut i: usize = 0;
    while i < svd.areas.len()
        invariant
            areas == svd.areas@,
            forall|other: Svd| #[trigger] parses_as(other, raw@) ==> other.areas@ == areas,
            i <= areas.len(),
            reports(report, raw@, areas, i as int),
        decreases areas.len() - i,
    {
        let area = &svd.areas[i];
        let ghost prev = file_check(raw@, areas, i as int)->Ok_0;
        let bytes = match svd.area_bytes(raw, area) {
            Ok(b) => b,
            Err(e) => {
                proof {
                    lemma_file_check_err(raw@, areas, i + 1, areas.len() as int);
                }
                return Err(e);
            },
        };
        proof {
            lemma_with_bound(raw@, areas, i as int);
        }
        match RecordTable::parse(area, bytes) {
            Ok(table) => {
                let tag = area.tag_str();
                let ghost before = report.problems@;
                check_table(&table, &tag, &mut report);
                proof {
                    let (f, c, w) = body_check(bytes@);
                    let next = file_check(raw@, areas, i + 1)->Ok_0;
                    let tagged = f.map_values(|x: Fault| (area.tag@, x));
                    assert(next.0 == prev.0 + tagged);
                    assert forall|k: int| 0 <= k < next.0.len() implies is_problem(
                        #[trigger] report.problems@[k],
                        next.0[k].0,
                        next.0[k].1,
                    ) by {
                        if k >= prev.0.len() {
                            assert(report.problems@[k] == report.problems@[before.len() + (k
                                - before.len())]);
                        }
                    }
                }
            },
            Err(_) => {},
        }
        i = i + 1;
    }
    Ok(report)
}

} // verus!

verus! {

/// Whether file `s` is a container that checks clean: every area within the file, and no
/// geometry or checksum problem anywhere.
pub open spec fn checks_clean(s: Seq<u8>) -> bool {
    &&& envelope_error(s) is None
    &&& forall|svd: Svd| #[trigger]
        parses_as(svd, s) ==> (file_check(s, svd.areas@, svd.areas@.len() as int) matches Ok(
            (faults, _, _),
        ) && faults.len() == 0)
}

/// Check `raw` and report whether it checks clean.
pub fn is_clean(raw: &Raw) -> (r: Result<Report>)
    ensures
        r matches Ok(report) ==> (report.problems@.len() == 0 <==> checks_clean(raw@)),
        r is Err ==> !checks_clean(raw@),
{
    let svd = match Svd::parse(raw) {
        Ok(svd) => svd,
        Err(e) => {
            return Err(e);
        },
    };
    let report = check(raw);
    proof {
        if report is Err {
            assert(!(file_check(raw@, svd.areas@, svd.areas@.len() as int) is Ok));
        }
        if report is Ok {
            let rep = report->Ok_0;
            assert(reports(rep, raw@, svd.areas@, svd.areas@.len() as int));
            if rep.problems@.len() == 0 {
                assert forall|other: Svd| #[trigger] parses_as(other, raw@) implies (file_check(
                    raw@,
                    other.areas@,
                    other.areas@.len() as int,
                ) matches Ok((faults, _, _)) && faults.len() == 0) by {
                    crate::diff::lemma_areas_unique(other, svd, raw@);
                }
            }
        }
    }
    report
}

} // verus!

verus! {

/// Whether `r` is what handing over file `s` gives when it must check clean: the file when it
/// does, else the error that opening or checking it raised, or every problem found.
pub open spec fn vouched(r: Result<Raw>, s: Seq<u8>) -> bool {
    match envelope_error(s) {
        Some(Error::NotAContainer { .. }) => r matches Err(Error::NotAContainer { head }) && head@
            == s.subrange(0, 6),
        Some(e) => r == Err::<Raw, Error>(e),
        None => forall|svd: Svd| #[trigger]
            parses_as(svd, s) ==> match file_check(s, svd.areas@, svd.areas@.len() as int) {
                Err(e) => r == Err::<Raw, Error>(e),
                Ok((faults, _, _)) => if faults.len() == 0 {
                    r matches Ok(o) && o@ == s
                } else {
                    r matches Err(Error::Inconsistent { problems }) && problems@.len() == faults.len()
                        && forall|k: int|
                        0 <= k < faults.len() ==> is_problem(
                            #[trigger] problems@[k],
                            faults[k].0,
                            faults[k].1,
                        )
                },
            },
    }
}

/// Hand `out` back when it checks clean; otherwise refuse it with what is wrong.
pub fn vouch(out: Raw) -> (r: Result<Raw>)
    ensures
        vouched(r, out@),
        r matches Ok(o) ==> o@ == out@ && checks_clean(out@),
        r is Err ==> !checks_clean(out@),
{
    let svd = Svd::parse(&out)?;
    proof {
        assert forall|other: Svd| #[trigger] parses_as(other, out@) implies other.areas@ == svd.areas@ by {
            crate::diff::lemma_areas_unique(other, svd, out@);
        }
    }
    let report = check(&out)?;
    if report.problems.len() > 0 {
        return Err(Error::Inconsistent { problems: report.problems });
    }
    Ok(out)
}

} // verus!

verus! {

proof fn lemma_faults_grow(s: Seq<u8>, areas: Seq<Area>, m: int, n: int)
    requires
        0 <= m <= n,
        file_check(s, areas, n) is Ok,
    ensures
        file_check(s, areas, m) is Ok,
        file_check(s, areas, m)->Ok_0.0.len() <= file_check(s, areas, n)->Ok_0.0.len(),
        forall|i: int|
            0 <= i < file_check(s, areas, m)->Ok_0.0.len() ==> #[trigger] file_check(s, areas, n)->Ok_0.0[i]
                == file_check(s, areas, m)->Ok_0.0[i],
    decreases n - m,
{
    if m < n {
        if file_check(s, areas, n - 1) is Err {
            lemma_file_check_err(s, areas, n - 1, n);
        }
        lemma_faults_grow(s, areas, m, n - 1);
    }
}

spec fn mismatch(b: Seq<u8>, k: int) -> Fault {
    Fault::Checksum { record: k as usize, stored: stored_sum(b, k), computed: spec_crc32(record_of(b, k)) }
}

proof fn lemma_sum_fault_at(b: Seq<u8>, n: int, k: int)
    requires
        0 <= k < n,
        stored_sum(b, k) != spec_crc32(record_of(b, k)),
    ensures
        exists|i: int| 0 <= i < sum_faults(b, n).len() && #[trigger] sum_faults(b, n)[i] == mismatch(b, k),
    decreases n,
{
    if k < n - 1 {
        lemma_sum_fault_at(b, n - 1, k);
        let i = choose|i: int| 0 <= i < sum_faults(b, n - 1).len() && #[trigger] sum_faults(b, n - 1)[i] == mismatch(b, k);
        assert(sum_faults(b, n)[i] == sum_faults(b, n - 1)[i]);
    } else {
        let i = sum_faults(b, n - 1).len() as int;
        assert(sum_faults(b, n)[i] == mismatch(b, k));
    }
}

/// A checksum that does not match its record is reported: in an area whose info block holds one
/// CRC-32 word per declared record (its info length, at byte 8, is 16 plus four per record), the
/// report on the file holds, for every whole record `k` whose stored word (at byte `16 + 4k`)
/// differs from the CRC-32 of its bytes, a checksum problem naming the area and record `k`, with
/// both sums.
pub proof fn law_bad_checksum_is_reported(s: Seq<u8>, svd: Svd, r: Report, a: int, k: int)
    requires
        parses_as(svd, s),
        reports(r, s, svd.areas@, svd.areas@.len() as int),
        0 <= a < svd.areas@.len(),
        svd.areas@[a].offset + svd.areas@[a].size <= s.len(),
        ({
            let b = s.subrange(svd.areas@[a].offset as int, svd.areas@[a].offset + svd.areas@[a].size);
            let count = le32(b, 0) as int;
            let size = le32(b, 4) as int;
            let info = le32(b, 8) as int;
            &&& b.len() >= 16
            &&& size > 0
            &&& count > 0
            &&& info == 16 + 4 * count
            &&& 0 <= k < count
            &&& info + (k + 1) * size <= b.len()
            &&& le32(b, 16 + 4 * k) != spec_crc32(b.subrange(info + k * size, info + (k + 1) * size))
        }),
    ensures
        ({
            let b = s.subrange(svd.areas@[a].offset as int, svd.areas@[a].offset + svd.areas@[a].size);
            let info = le32(b, 8) as int;
            let size = le32(b, 4) as int;
            exists|j: int|
                0 <= j < r.problems@.len() && (#[trigger] r.problems@[j] matches Problem::Checksum {
                    tag,
                    record,
                    stored,
                    computed,
                } && tag@ == field_text(svd.areas@[a].tag@) && record == k && stored == le32(b, 16 + 4 * k)
                    && computed == spec_crc32(b.subrange(info + k * size, info + (k + 1) * size)))
        }),
{
    let areas = svd.areas@;
    let n = areas.len() as int;
    let ar = areas[a];
    let b = block(s, ar);
    let count = le32(b, 0) as int;
    let rs = le32(b, 4) as int;
    assert(data_start(b) == 16 + 4 * count);
    assert(table_error(ar.tag, b) is None);
    assert(info_stride(b) == 4) by {
        assert((4 * count) / count == 4) by (nonlinear_arith)
            requires
                count > 0,
        ;
    }
    let body = b.len() - data_start(b);
    assert(k < body / rs) by {
        assert((k + 1) * rs <= body);
        assert(k * rs + rs <= body) by (nonlinear_arith)
            requires
                (k + 1) * rs <= body,
        ;
        assert(k < body / rs) by (nonlinear_arith)
            requires
                k * rs + rs <= body,
                rs > 0,
                k >= 0,
        ;
    }
    let nr = whole_records(b) as int;
    assert(k < nr);
    lemma_faults_grow(s, areas, a + 1, n);
    lemma_faults_grow(s, areas, a, a + 1);
    let before = file_check(s, areas, a)->Ok_0.0;
    let (f, c, w) = body_check(b);
    let tr = if nr < count {
        seq![Fault::Truncated { declared: count as usize, present: nr as usize }]
    } else {
        Seq::empty()
    };
    let geo = if count == nr && data_start(b) + count * rs != b.len() {
        seq![Fault::AreaSize { declared: (data_start(b) + count * rs) as usize, actual: b.len() as usize }]
    } else {
        Seq::empty()
    };
    assert(f == tr + geo + sum_faults(b, nr));
    lemma_sum_fault_at(b, nr, k);
    let i = choose|i: int| 0 <= i < sum_faults(b, nr).len() && #[trigger] sum_faults(b, nr)[i] == mismatch(b, k);
    let fi = tr.len() + geo.len() + i;
    assert(f[fi] == sum_faults(b, nr)[i]);
    let at = file_check(s, areas, a + 1)->Ok_0.0;
    assert(at == before + f.map_values(|x: Fault| (ar.tag@, x)));
    let j = before.len() + fi;
    assert(at[j] == (ar.tag@, f[fi]));
    let all = file_check(s, areas, n)->Ok_0.0;
    assert(all[j] == at[j]);
    assert(is_problem(r.problems@[j], all[j].0, all[j].1));
}

} // verus!

verus! {

/// Whether fault `f`, found in an area of file `s`, is a checksum fault that some area of `areas`
/// tagged `tag` really has: a whole record whose stored word differs from the CRC-32 of its bytes.
pub open spec fn real_mismatch(s: Seq<u8>, areas: Seq<Area>, tag: Seq<u8>, f: Fault) -> bool {
    f matches Fault::Checksum { record, stored, computed } ==> exists|a: int|
        #![trigger areas[a]]
        0 <= a < areas.len() && areas[a].tag@ == tag && fits(areas[a], s.len()) && {
            let b = block(s, areas[a]);
            &&& record < whole_records(b)
            &&& stored == le32(b, 16 + 4 * record)
            &&& computed == spec_crc32(record_of(b, record as int))
            &&& stored != computed
        }
}

proof fn lemma_sum_faults_real(b: Seq<u8>, n: int)
    requires
        n <= usize::MAX,
    ensures
        forall|i: int|
            0 <= i < sum_faults(b, n).len() ==> (#[trigger] sum_faults(b, n)[i] matches Fault::Checksum {
                record,
                stored,
                computed,
            } && record < n && stored == stored_sum(b, record as int) && computed == spec_crc32(
                record_of(b, record as int),
            ) && stored != computed),
    decreases n,
{
    if n > 0 {
        lemma_sum_faults_real(b, n - 1);
    }
}

proof fn lemma_faults_real(s: Seq<u8>, areas: Seq<Area>, n: int)
    requires
        0 <= n <= areas.len(),
    ensures
        file_check(s, areas, n) matches Ok((faults, _, _)) ==> forall|i: int|
            0 <= i < faults.len() ==> real_mismatch(s, areas, (#[trigger] faults[i]).0, faults[i].1),
    decreases n,
{
    if n > 0 {
        lemma_faults_real(s, areas, n - 1);
        if let Ok((faults, _, _)) = file_check(s, areas, n) {
            let prev = file_check(s, areas, n - 1)->Ok_0.0;
            let a = areas[n - 1];
            if fits(a, s.len()) && table_error(a.tag, block(s, a)) is None {
                let b = block(s, a);
                let (f, c, w) = body_check(b);
                assert(faults == prev + f.map_values(|x: Fault| (a.tag@, x)));
                let nr = whole_records(b) as int;
                crate::container::svd::lemma_first_area(areas, a.tag@);
                lemma_block_records(b);
                lemma_sum_faults_real(b, nr);
                assert forall|i: int| 0 <= i < faults.len() implies real_mismatch(s, areas, (#[trigger] faults[i]).0, faults[i].1) by {
                    if i >= prev.len() {
                        let x = f[i - prev.len()];
                        assert(faults[i] == (a.tag@, x));
                        if x is Checksum {
                            let d = le32(b, 0) as int;
                            let rs = le32(b, 4) as int;
                            let tr = if nr < d {
                                seq![Fault::Truncated { declared: d as usize, present: nr as usize }]
                            } else {
                                Seq::empty()
                            };
                            let geo = if d == nr && data_start(b) + d * rs != b.len() {
                                seq![Fault::AreaSize { declared: (data_start(b) + d * rs) as usize, actual: b.len() as usize }]
                            } else {
                                Seq::empty()
                            };
                            assert(f == tr + geo + sum_faults(b, nr));
                            let q = i - prev.len() - tr.len() - geo.len();
                            assert(x == sum_faults(b, nr)[q]);
                            assert(areas[n - 1].tag@ == faults[i].0);
                        }
                    } else {
                        assert(faults[i] == prev[i]);
                    }
                }
            } else {
                assert(faults == prev);
            }
        }
    }
}

proof fn lemma_block_records(b: Seq<u8>)
    requires
        b.len() >= 8,
        le32(b, 4) != 0,
    ensures
        whole_records(b) <= b.len(),
{
    let ds = data_start(b) as int;
    let rs = le32(b, 4) as int;
    let body = if b.len() >= ds { b.len() - ds } else { 0 };
    assert(body / rs <= body) by (nonlinear_arith)
        requires
            rs >= 1,
            body >= 0,
    ;
}

/// Every checksum problem a check reports is real: the area it names has that whole record, and
/// the word stored for it (at byte `16 + 4 * record`) and the CRC-32 of its bytes are the two
/// sums reported, and they differ.
pub proof fn law_checksum_problems_are_real(s: Seq<u8>, svd: Svd, r: Report, j: int)
    requires
        parses_as(svd, s),
        reports(r, s, svd.areas@, svd.areas@.len() as int),
        0 <= j < r.problems@.len(),
        s.len() <= usize::MAX,
    ensures
        (r.problems@[j] matches Problem::Checksum { tag, record, stored, computed } ==> exists|a: int|
            #![trigger svd.areas@[a]]
            0 <= a < svd.areas@.len() && tag@ == field_text(svd.areas@[a].tag@) && fits(svd.areas@[a], s.len())
                && {
                let b = block(s, svd.areas@[a]);
                &&& record < whole_records(b)
                &&& stored == le32(b, 16 + 4 * record)
                &&& computed == spec_crc32(record_of(b, record as int))
                &&& stored != computed
            }),
{
    let areas = svd.areas@;
    lemma_faults_real(s, areas, areas.len() as int);
    let faults = file_check(s, areas, areas.len() as int)->Ok_0.0;
    assert(is_problem(r.problems@[j], faults[j].0, faults[j].1));
    assert(real_mismatch(s, areas, faults[j].0, faults[j].1));
}

} // verus!
