//! The reports the command line prints, built from what the library reads: how two files
//! differ, what a file needs of its destination, and one scene in full.

use vstd::prelude::*;

use crate::container::svd::{envelope_error, parses_as};
use crate::container::{Raw, Svd};
use crate::diff::{all_show, compare, comparison, finding_tag, ByteRun, Finding, Side};
use crate::model::{bank_label, Scene, ToneRef, ToneType, Zone};
use crate::render::{
    aligns, bank, headers, note, note_text, pan, pan_text, plural, plural_text, range, render_run, requirements,
    requirements_text, row_texts, run_text, signed, signed_text, table_text, tone, tone_type, zone_state, Align, Table,
};
use crate::requirements::scan::{
    file_outcome, held_multisamples, inventory, multisamples_of, opened, requirements as requirements_of, ScanCtx,
};
use crate::requirements::{
    comparison_lines, compare as weigh, reads_as, reads_from, str_equal, Inventory, Line, Requirements, Verdict,
};
use crate::role::{role_of, Role};
use crate::text::{debug_str, decimal, padded_decimal, push_debug_str, push_decimal, push_padded_decimal, push_str};
use crate::{Error, Result};

verus! {

/// Whether the report keeps finding `f` when only the areas `areas` are asked for (none asked
/// for means all).
pub open spec fn wanted(f: Finding, areas: Seq<String>) -> bool {
    areas.len() == 0 || exists|j: int| 0 <= j < areas.len() && (#[trigger] areas[j])@ == finding_tag(f)@
}

/// The findings of `fs` the report keeps, in order.
pub open spec fn selected(fs: Seq<Finding>, areas: Seq<String>) -> Seq<Finding>
    decreases fs.len(),
{
    if fs.len() == 0 {
        Seq::empty()
    } else if wanted(fs.last(), areas) {
        selected(fs.drop_last(), areas).push(fs.last())
    } else {
        selected(fs.drop_last(), areas)
    }
}

/// The differing runs a finding carries.
pub open spec fn finding_runs(f: Finding) -> Seq<ByteRun> {
    match f {
        Finding::AreaHeader { runs, .. } => runs@,
        Finding::AreaBytes { runs, .. } => runs@,
        Finding::Record { runs, .. } => runs@,
        _ => Seq::empty(),
    }
}

/// Whether `context` bytes on either side of `run` stay within the address space.
pub open spec fn run_fits(run: ByteRun, context: int) -> bool {
    &&& run.left_at + run.left@.len() + context <= usize::MAX
    &&& run.right_at + run.right@.len() + context <= usize::MAX
}

/// Whether every run of every finding of `fs` can be shown with `context` bytes around it.
pub open spec fn all_fit(fs: Seq<Finding>, context: int) -> bool {
    forall|i: int, j: int|
        0 <= i < fs.len() && 0 <= j < finding_runs(fs[i]).len() ==> run_fits(
            #[trigger] finding_runs(fs[i])[j],
            context,
        )
}

/// `a + b`, held at the largest `usize`.
pub open spec fn sat_add(a: int, b: int) -> int {
    if a + b > usize::MAX {
        usize::MAX as int
    } else {
        a + b
    }
}

/// The bytes the runs cover, counted on the left side and held at the largest `usize`.
pub open spec fn runs_changed(runs: Seq<ByteRun>) -> int
    decreases runs.len(),
{
    if runs.len() == 0 {
        0
    } else {
        sat_add(runs_changed(runs.drop_last()), runs.last().left@.len() as int)
    }
}

/// The bytes all findings of `fs` cover, held at the largest `usize`.
pub open spec fn changed_total(fs: Seq<Finding>) -> int
    decreases fs.len(),
{
    if fs.len() == 0 {
        0
    } else {
        sat_add(changed_total(fs.drop_last()), runs_changed(finding_runs(fs.last())))
    }
}

/// One line for each run, labelled `at`.
pub open spec fn runs_text(at: Seq<char>, runs: Seq<ByteRun>, l: Seq<u8>, r: Seq<u8>, context: nat) -> Seq<
    char,
>
    decreases runs.len(),
{
    if runs.len() == 0 {
        Seq::empty()
    } else {
        runs_text(at, runs.drop_last(), l, r, context) + run_text(at, runs.last(), l, r, context) + "\n"@
    }
}

/// The lines one finding prints, the runs shown with `context` bytes around them.
pub open spec fn finding_text(f: Finding, l: Seq<u8>, r: Seq<u8>, context: nat) -> Seq<char> {
    match f {
        Finding::AreaOnlyIn { tag, side, size, records } => tag@ + "  present in "@ + side.spec_label()@
            + " only ("@ + decimal(size as nat) + " bytes, "@ + decimal(records as nat) + " records)\n"@,
        Finding::RecordSizeDiffers { tag, left, right } => tag@ + "  record size differs: "@ + decimal(
            left as nat,
        ) + " vs "@ + decimal(right as nat) + " — records not comparable\n"@,
        Finding::RecordCountDiffers { tag, left, right } => tag@ + "  record count differs: "@
            + decimal(left as nat) + " vs "@ + decimal(right as nat) + "\n"@,
        Finding::RecordOnlyIn { tag, side, record, name } => tag@ + "["@ + decimal(record as nat)
            + "]  present in "@ + side.spec_label()@ + " only  "@ + debug_str(name@) + "\n"@,
        Finding::AreaHeader { tag, runs } => runs_text(tag@ + ".header"@, runs@, l, r, context),
        Finding::AreaBytes { tag, runs } => (if runs@.len() == 0 {
            tag@ + "  sizes differ (not a record table)\n"@
        } else {
            Seq::empty()
        }) + runs_text(tag@ + ".bytes"@, runs@, l, r, context),
        Finding::Record { tag, record, runs } => runs_text(
            tag@ + "["@ + decimal(record as nat) + "]"@,
            runs@,
            l,
            r,
            context,
        ),
    }
}

/// The lines of all findings of `fs`, in order.
pub open spec fn findings_text(fs: Seq<Finding>, l: Seq<u8>, r: Seq<u8>, context: nat) -> Seq<char>
    decreases fs.len(),
{
    if fs.len() == 0 {
        Seq::empty()
    } else {
        findings_text(fs.drop_last(), l, r, context) + finding_text(fs.last(), l, r, context)
    }
}

/// The report on files `l` (named `ln`) and `r` (named `rn`) differing by `fs`, keeping the
/// findings in `areas` and showing `context` bytes around each run; an error when that context
/// would leave the address space.
pub open spec fn diff_text(
    ln: Seq<char>,
    rn: Seq<char>,
    l: Seq<u8>,
    r: Seq<u8>,
    fs: Seq<Finding>,
    areas: Seq<String>,
    context: nat,
) -> Result<Seq<char>> {
    let sel = selected(fs, areas);
    let head = "left:  "@ + ln + " ("@ + decimal(l.len()) + " bytes)\n"@ + "right: "@ + rn + " ("@
        + decimal(r.len()) + " bytes)\n"@ + "\n"@;
    if sel.len() == 0 {
        Ok(head + "no differences\n"@)
    } else if !all_fit(sel, context as int) {
        Err(Error::ContextTooWide { context: context as usize })
    } else {
        let changed = changed_total(sel);
        Ok(
            head + findings_text(sel, l, r, context) + "\n"@ + decimal(sel.len()) + " finding"@
                + plural_text(sel.len() as int) + ", "@ + decimal(changed as nat) + " changed byte"@
                + plural_text(changed) + "\n"@,
        )
    }
}

fn is_wanted(f: &Finding, areas: &[String]) -> (b: bool)
    ensures
        b == wanted(*f, areas@),
{
    if areas.len() == 0 {
        return true;
    }
    let tag = f.tag();
    let mut j: usize = 0;
    while j < areas.len()
        invariant
            j <= areas@.len(),
            tag@ == finding_tag(*f)@,
            forall|k: int| 0 <= k < j ==> (#[trigger] areas@[k])@ != finding_tag(*f)@,
        decreases areas@.len() - j,
    {
        if str_equal(areas[j].as_str(), tag) {
            return true;
        }
        j = j + 1;
    }
    false
}

fn runs_changed_of(runs: &Vec<ByteRun>) -> (n: usize)
    ensures
        n == runs_changed(runs@),
{
    let mut n: usize = 0;
    let mut i: usize = 0;
    while i < runs.len()
        invariant
            i <= runs@.len(),
            n == runs_changed(runs@.subrange(0, i as int)),
        decreases runs@.len() - i,
    {
        assert(runs@.subrange(0, i + 1).drop_last() =~= runs@.subrange(0, i as int));
        n = n.saturating_add(runs[i].left.len());
        i = i + 1;
    }
    assert(runs@.subrange(0, runs@.len() as int) =~= runs@);
    n
}

fn runs_of_finding(f: &Finding) -> (runs: Option<&Vec<ByteRun>>)
    ensures
        match runs {
            Some(v) => v@ == finding_runs(*f),
            None => finding_runs(*f).len() == 0,
        },
{
    match f {
        Finding::AreaHeader { runs, .. } => Some(runs),
        Finding::AreaBytes { runs, .. } => Some(runs),
        Finding::Record { runs, .. } => Some(runs),
        _ => None,
    }
}

fn runs_fit(f: &Finding, context: usize) -> (b: bool)
    ensures
        b == forall|j: int| 0 <= j < finding_runs(*f).len() ==> run_fits(#[trigger] finding_runs(*f)[j], context as int),
{
    match runs_of_finding(f) {
        None => true,
        Some(runs) => {
            let mut j: usize = 0;
            while j < runs.len()
                invariant
                    j <= runs@.len(),
                    runs@ == finding_runs(*f),
                    forall|k: int| 0 <= k < j ==> run_fits(#[trigger] runs@[k], context as int),
                decreases runs@.len() - j,
            {
                let run = &runs[j];
                if run.left.len() > usize::MAX - context || run.left_at > usize::MAX - context - run.left.len() {
                    return false;
                }
                if run.right.len() > usize::MAX - context || run.right_at > usize::MAX - context
                    - run.right.len() {
                    return false;
                }
                j = j + 1;
            }
            true
        },
    }
}

fn push_runs(out: &mut String, at: &str, runs: &Vec<ByteRun>, l: &Raw, r: &Raw, context: usize)
    requires
        forall|j: int| 0 <= j < runs@.len() ==> run_fits(#[trigger] runs@[j], context as int),
    ensures
        final(out)@ == old(out)@ + runs_text(at@, runs@, l@, r@, context as nat),
{
    let mut j: usize = 0;
    while j < runs.len()
        invariant
            j <= runs@.len(),
            forall|k: int| 0 <= k < runs@.len() ==> run_fits(#[trigger] runs@[k], context as int),
            out@ == old(out)@ + runs_text(at@, runs@.subrange(0, j as int), l@, r@, context as nat),
        decreases runs@.len() - j,
    {
        assert(run_fits(runs@[j as int], context as int));
        let line = render_run(at, &runs[j], l, r, context);
        push_str(out, line.as_str());
        push_str(out, "\n");
        assert(runs@.subrange(0, j + 1).drop_last() =~= runs@.subrange(0, j as int));
        assert(out@ =~= old(out)@ + runs_text(at@, runs@.subrange(0, j + 1), l@, r@, context as nat));
        j = j + 1;
    }
    assert(runs@.subrange(0, runs@.len() as int) =~= runs@);
}

fn push_finding(out: &mut String, f: &Finding, l: &Raw, r: &Raw, context: usize)
    requires
        forall|j: int| 0 <= j < finding_runs(*f).len() ==> run_fits(#[trigger] finding_runs(*f)[j], context as int),
    ensures
        final(out)@ == old(out)@ + finding_text(*f, l@, r@, context as nat),
{
    match f {
        Finding::AreaOnlyIn { tag, side, size, records } => {
            push_str(out, tag.as_str());
            push_str(out, "  present in ");
            push_str(out, side.label());
            push_str(out, " only (");
            push_decimal(out, *size as u64);
            push_str(out, " bytes, ");
            push_decimal(out, *records as u64);
            push_str(out, " records)\n");
        },
        Finding::RecordSizeDiffers { tag, left, right } => {
            push_str(out, tag.as_str());
            push_str(out, "  record size differs: ");
            push_decimal(out, *left as u64);
            push_str(out, " vs ");
            push_decimal(out, *right as u64);
            push_str(out, " — records not comparable\n");
        },
        Finding::RecordCountDiffers { tag, left, right } => {
            push_str(out, tag.as_str());
            push_str(out, "  record count differs: ");
            push_decimal(out, *left as u64);
            push_str(out, " vs ");
            push_decimal(out, *right as u64);
            push_str(out, "\n");
        },
        Finding::RecordOnlyIn { tag, side, record, name } => {
            push_str(out, tag.as_str());
            push_str(out, "[");
            push_decimal(out, *record as u64);
            push_str(out, "]  present in ");
            push_str(out, side.label());
            push_str(out, " only  ");
            push_debug_str(out, name.as_str());
            push_str(out, "\n");
        },
        Finding::AreaHeader { tag, runs } => {
            let mut at = String::new();
            push_str(&mut at, tag.as_str());
            push_str(&mut at, ".header");
            assert(runs@ == finding_runs(*f));
            push_runs(out, at.as_str(), runs, l, r, context);
        },
        Finding::AreaBytes { tag, runs } => {
            if runs.len() == 0 {
                push_str(out, tag.as_str());
                push_str(out, "  sizes differ (not a record table)\n");
            }
            assert(runs@ == finding_runs(*f));
            let mut at = String::new();
            push_str(&mut at, tag.as_str());
            push_str(&mut at, ".bytes");
            push_runs(out, at.as_str(), runs, l, r, context);
        },
        Finding::Record { tag, record, runs } => {
            let mut at = String::new();
            push_str(&mut at, tag.as_str());
            push_str(&mut at, "[");
            push_decimal(&mut at, *record as u64);
            push_str(&mut at, "]");
            assert(runs@ == finding_runs(*f));
            push_runs(out, at.as_str(), runs, l, r, context);
        },
    }
    assert(out@ =~= old(out)@ + finding_text(*f, l@, r@, context as nat));
}

/// The report on how `left` (named `left_name`) and `right` (named `right_name`) differ by
/// `findings`, keeping the findings of the areas in `areas` (all when none is named) and showing
/// `context` unchanged bytes around each differing run.
pub fn diff_text_of(
    left: &Raw,
    right: &Raw,
    left_name: &str,
    right_name: &str,
    findings: &Vec<Finding>,
    areas: &[String],
    context: usize,
) -> (r: Result<String>)
    ensures
        match diff_text(left_name@, right_name@, left@, right@, findings@, areas@, context as nat) {
            Ok(t) => r matches Ok(s) && s@ == t,
            Err(e) => r == Err::<String, Error>(e),
        },
{
    let mut sel: Vec<usize> = Vec::new();
    let mut i: usize = 0;
    while i < findings.len()
        invariant
            i <= findings@.len(),
            forall|k: int| 0 <= k < sel@.len() ==> sel@[k] < findings@.len(),
            sel@.map_values(|k: usize| findings@[k as int]) == selected(findings@.subrange(0, i as int), areas@),
        decreases findings@.len() - i,
    {
        assert(findings@.subrange(0, i + 1).drop_last() =~= findings@.subrange(0, i as int));
        if is_wanted(&findings[i], areas) {
            let ghost before = sel@;
            sel.push(i);
            assert(sel@.map_values(|k: usize| findings@[k as int]) =~= before.map_values(
                |k: usize| findings@[k as int],
            ).push(findings@[i as int]));
        }
        i = i + 1;
    }
    assert(findings@.subrange(0, findings@.len() as int) =~= findings@);
    let ghost chosen = selected(findings@, areas@);
    assert(chosen.len() == sel@.len());
    let mut out = String::new();
    push_str(&mut out, "left:  ");
    push_str(&mut out, left_name);
    push_str(&mut out, " (");
    push_decimal(&mut out, left.len() as u64);
    push_str(&mut out, " bytes)\n");
    push_str(&mut out, "right: ");
    push_str(&mut out, right_name);
    push_str(&mut out, " (");
    push_decimal(&mut out, right.len() as u64);
    push_str(&mut out, " bytes)\n");
    push_str(&mut out, "\n");
    let ghost head = out@;
    if sel.len() == 0 {
        push_str(&mut out, "no differences\n");
        assert(out@ =~= head + "no differences\n"@);
        return Ok(out);
    }
    let mut k: usize = 0;
    while k < sel.len()
        invariant
            k <= sel@.len(),
            sel@.len() > 0,
            chosen == selected(findings@, areas@),
            chosen.len() == sel@.len(),
            forall|m: int| 0 <= m < sel@.len() ==> sel@[m] < findings@.len(),
            forall|m: int| 0 <= m < sel@.len() ==> chosen[m] == findings@[sel@[m] as int],
            forall|m: int, j: int|
                0 <= m < k && 0 <= j < finding_runs(chosen[m]).len() ==> run_fits(
                    #[trigger] finding_runs(chosen[m])[j],
                    context as int,
                ),
        decreases sel@.len() - k,
    {
        assert(chosen[k as int] == findings@[sel@[k as int] as int]);
        if !runs_fit(&findings[sel[k]], context) {
            assert(!all_fit(chosen, context as int));
            assert((context as nat) as usize == context);
            assert(diff_text(left_name@, right_name@, left@, right@, findings@, areas@, context as nat)
                == Err::<Seq<char>, Error>(Error::ContextTooWide { context }));
            return Err(Error::ContextTooWide { context });
        }
        k = k + 1;
    }
    assert(all_fit(chosen, context as int));
    let mut changed: usize = 0;
    let mut k: usize = 0;
    while k < sel.len()
        invariant
            k <= sel@.len(),
            chosen.len() == sel@.len(),
            all_fit(chosen, context as int),
            forall|m: int| 0 <= m < sel@.len() ==> sel@[m] < findings@.len(),
            forall|m: int| 0 <= m < sel@.len() ==> chosen[m] == findings@[sel@[m] as int],
            out@ == head + findings_text(chosen.subrange(0, k as int), left@, right@, context as nat),
            changed == changed_total(chosen.subrange(0, k as int)),
        decreases sel@.len() - k,
    {
        let f = &findings[sel[k]];
        assert(*f == chosen[k as int]);
        assert forall|j: int| 0 <= j < finding_runs(*f).len() implies run_fits(
            #[trigger] finding_runs(*f)[j],
            context as int,
        ) by {
            assert(run_fits(finding_runs(chosen[k as int])[j], context as int));
        }
        push_finding(&mut out, f, left, right, context);
        let n = match runs_of_finding(f) {
            Some(runs) => runs_changed_of(runs),
            None => 0,
        };
        assert(chosen.subrange(0, k + 1).drop_last() =~= chosen.subrange(0, k as int));
        changed = changed.saturating_add(n);
        k = k + 1;
    }
    assert(chosen.subrange(0, sel@.len() as int) =~= chosen);
    push_str(&mut out, "\n");
    push_decimal(&mut out, sel.len() as u64);
    push_str(&mut out, " finding");
    push_str(&mut out, plural(sel.len()));
    push_str(&mut out, ", ");
    push_decimal(&mut out, changed as u64);
    push_str(&mut out, " changed byte");
    push_str(&mut out, plural(changed));
    push_str(&mut out, "\n");
    assert(out@ =~= head + findings_text(chosen, left@, right@, context as nat) + "\n"@ + decimal(
        sel@.len() as nat,
    ) + " finding"@ + plural_text(sel@.len() as int) + ", "@ + decimal(changed as nat) + " changed byte"@
        + plural_text(changed as int) + "\n"@);
    Ok(out)
}

/// Compare `left` with `right` and report how they differ: the findings of the areas in
/// `areas` (all when none is named), each differing run shown with `context` unchanged bytes
/// around it, and a count of findings and changed bytes.
pub fn diff_report(
    left: &Raw,
    right: &Raw,
    left_name: &str,
    right_name: &str,
    areas: &[String],
    context: usize,
) -> (r: Result<String>)
    ensures
        envelope_error(left@) is Some ==> r is Err,
        envelope_error(right@) is Some ==> r is Err,
        forall|ls: Svd, rs: Svd|
            #[trigger] parses_as(ls, left@) && #[trigger] parses_as(rs, right@) ==> match comparison(
                left@,
                right@,
                ls.areas@,
                rs.areas@,
            ) {
                Err(e) => r == Err::<String, Error>(e),
                Ok(items) => exists|fs: Seq<Finding>|
                    all_show(fs, items) && match #[trigger] diff_text(
                        left_name@,
                        right_name@,
                        left@,
                        right@,
                        fs,
                        areas@,
                        context as nat,
                    ) {
                        Ok(t) => r matches Ok(s) && s@ == t,
                        Err(e) => r == Err::<String, Error>(e),
                    },
            },
{
    let findings = compare(left, right)?;
    let r = diff_text_of(left, right, left_name, right_name, &findings, areas, context);
    proof {
        assert(diff_text(left_name@, right_name@, left@, right@, findings@, areas@, context as nat)
            == diff_text(left_name@, right_name@, left@, right@, findings@, areas@, context as nat));
    }
    r
}

} // verus!

verus! {

/// Sound engine names, comma-separated.
pub open spec fn engines_text(es: Seq<ToneType>) -> Seq<char>
    decreases es.len(),
{
    if es.len() == 0 {
        Seq::empty()
    } else if es.len() == 1 {
        es[0].spec_label()@
    } else {
        engines_text(es.drop_last()) + ", "@ + es.last().spec_label()@
    }
}

/// How many of `lines` carry a verdict that fails a gate.
pub open spec fn problem_count(lines: Seq<Line>) -> nat
    decreases lines.len(),
{
    if lines.len() == 0 {
        0
    } else {
        problem_count(lines.drop_last()) + (if lines.last().1 is Missing || lines.last().1 is Differs {
            1nat
        } else {
            0nat
        })
    }
}

/// How many of `lines` no file can settle.
pub open spec fn unknown_count(lines: Seq<Line>) -> nat
    decreases lines.len(),
{
    if lines.len() == 0 {
        0
    } else {
        unknown_count(lines.drop_last()) + (if lines.last().1 is Unknown {
            1nat
        } else {
            0nat
        })
    }
}

/// Whether `text` is the table with headers `h`, alignments `a` and rows `rows`.
pub open spec fn shows_table(text: Seq<char>, h: Seq<Seq<char>>, a: Seq<Align>, rows: Seq<Seq<Seq<char>>>) -> bool {
    exists|t: Table|
        headers(t) == h && aligns(t) == a && row_texts(t) == rows && #[trigger] table_text(t) == text
}

/// The verdict table's rows: verdict, requirement, and what the destination says.
pub open spec fn verdict_rows(lines: Seq<Line>) -> Seq<Seq<Seq<char>>> {
    lines.map_values(|l: Line| seq![l.1.spec_as_str()@, l.0, l.2])
}

/// The paragraph on requirements no file can answer, when there are `n` of them.
pub open spec fn unknown_note(n: nat) -> Seq<char> {
    if n == 0 {
        Seq::empty()
    } else {
        decimal(n) + " requirement"@ + plural_text(n as int)
            + " no file can answer: nothing in one lists the expansions an\ninstrument has installed, and a bank naming no samples of its own cannot be matched\nby name against the slots it points at. Check those on the panel.\n"@
    }
}

/// Whether `tt` is the table of verdicts on `lines`.
pub open spec fn verdict_table(tt: Seq<char>, lines: Seq<Line>) -> bool {
    shows_table(
        tt,
        seq!["VERDICT"@, "REQUIREMENT"@, "THE DESTINATION"@],
        seq![Align::Left, Align::Left, Align::Left],
        verdict_rows(lines),
    )
}

/// The closing count of definitely unmet requirements, when there are `n` of them.
pub open spec fn unmet_note(n: nat) -> Seq<char> {
    if n == 0 {
        Seq::empty()
    } else {
        decimal(n) + " requirement"@ + plural_text(n as int) + " unmet"@
    }
}

/// Whether `(text, failed)` is the check report on file `name` of role `role` needing `needs`,
/// weighed against destination `against` (its name and what it holds) if one is given; `failed`
/// when some requirement is definitely unmet, in which case the text ends by counting them.
#[verifier::opaque]
pub open spec fn check_shows(
    text: Seq<char>,
    failed: bool,
    name: Seq<char>,
    role: Role,
    needs: Requirements,
    against: Option<(Seq<char>, Inventory)>,
) -> bool {
    let head = "file:  "@ + name + " ("@ + role.spec_as_str()@ + ")\n"@ + (if needs.engines@.len() > 0 {
        "plays: "@ + engines_text(needs.engines@) + "\n"@
    } else {
        Seq::empty()
    }) + "\n"@;
    match against {
        None => !failed && text == head + (if requirements_text(needs).len() == 0 {
            "needs nothing from its destination\n"@
        } else {
            requirements_text(needs)
        }),
        Some((dn, held)) => {
            let top = head + "against: "@ + dn + " ("@ + held.role.spec_as_str()@ + ")\n\n"@;
            let lines = comparison_lines(needs, held);
            if lines.len() == 0 {
                !failed && text == top
                    + "everything this file needs, that one has — as far as a file can say\n"@
            } else {
                let p = problem_count(lines);
                failed == (p > 0) && exists|tt: Seq<char>|
                    #[trigger] verdict_table(tt, lines) && text == top + tt + "\n"@ + unknown_note(unknown_count(lines)) + unmet_note(p)
            }
        },
    }
}

fn engines_line(es: &Vec<ToneType>) -> (s: String)
    ensures
        s@ == engines_text(es@),
{
    let mut s = String::new();
    let mut i: usize = 0;
    while i < es.len()
        invariant
            i <= es@.len(),
            s@ == engines_text(es@.take(i as int)),
        decreases es@.len() - i,
    {
        assert(es@.take(i + 1).drop_last() =~= es@.take(i as int));
        if i > 0 {
            push_str(&mut s, ", ");
        }
        push_str(&mut s, es[i].label());
        i = i + 1;
    }
    assert(es@.take(es@.len() as int) =~= es@);
    s
}

fn verdict_section(findings: &Vec<crate::requirements::Finding>, Ghost(lines): Ghost<Seq<Line>>) -> (r: (String, bool))
    requires
        reads_from(findings@, 0, lines),
        lines.len() > 0,
    ensures
        r.1 == (problem_count(lines) > 0),
        exists|tt: Seq<char>|
            #[trigger] verdict_table(tt, lines) && r.0@ == tt + "\n"@ + unknown_note(unknown_count(lines))
                + unmet_note(problem_count(lines)),
{
    let mut out = String::new();
    let mut table = Table::new(
        vec![("VERDICT", Align::Left), ("REQUIREMENT", Align::Left), ("THE DESTINATION", Align::Left)],
    );
    let mut problems: usize = 0;
    let mut unknown: usize = 0;
    let mut i: usize = 0;
    while i < findings.len()
        invariant
            i <= findings@.len(),
            reads_from(findings@, 0, lines),
            table.columns@ == seq![
                ("VERDICT", Align::Left),
                ("REQUIREMENT", Align::Left),
                ("THE DESTINATION", Align::Left),
            ],
            row_texts(table) == verdict_rows(lines.take(i as int)),
            problems == problem_count(lines.take(i as int)),
            unknown == unknown_count(lines.take(i as int)),
            problems <= i,
            unknown <= i,
        decreases findings@.len() - i,
    {
        let f = &findings[i];
        assert(reads_as(findings@[0 + i], lines[i as int]));
        assert(lines.take(i + 1).drop_last() =~= lines.take(i as int));
        let ghost before = table.rows@;
        table.row(vec![f.verdict.as_str().to_string(), f.requirement.clone(), f.detail.clone()]);
        proof {
            let cells = table.rows@.last();
            assert(row_texts(table) =~= verdict_rows(lines.take(i + 1))) by {
                assert(verdict_rows(lines.take(i + 1)) =~= verdict_rows(lines.take(i as int)).push(
                    seq![lines[i as int].1.spec_as_str()@, lines[i as int].0, lines[i as int].2],
                ));
                assert(cells@.map_values(|c: String| c@) =~= seq![
                    lines[i as int].1.spec_as_str()@,
                    lines[i as int].0,
                    lines[i as int].2,
                ]);
            }
        }
        if f.verdict.is_problem() {
            problems = problems + 1;
        }
        if matches!(f.verdict, Verdict::Unknown) {
            unknown = unknown + 1;
        }
        i = i + 1;
    }
    assert(lines.take(findings@.len() as int) =~= lines);
    let t = table.render();
    push_str(&mut out, t.as_str());
    push_str(&mut out, "\n");
    if unknown > 0 {
        push_decimal(&mut out, unknown as u64);
        push_str(&mut out, " requirement");
        push_str(&mut out, plural(unknown));
        push_str(
            &mut out,
            " no file can answer: nothing in one lists the expansions an\ninstrument has installed, and a bank naming no samples of its own cannot be matched\nby name against the slots it points at. Check those on the panel.\n",
        );
    }
    let ghost mid = out@;
    if problems > 0 {
        push_decimal(&mut out, problems as u64);
        push_str(&mut out, " requirement");
        push_str(&mut out, plural(problems));
        push_str(&mut out, " unmet");
    }
    proof {
        assert(headers(table) =~= seq!["VERDICT"@, "REQUIREMENT"@, "THE DESTINATION"@]);
        assert(aligns(table) =~= seq![Align::Left, Align::Left, Align::Left]);
        assert(verdict_table(t@, lines));
        let p = problem_count(lines);
        assert(out@ =~= t@ + "\n"@ + unknown_note(unknown_count(lines)) + unmet_note(p));
    }
    (out, problems > 0)
}

/// The check report on file `name`, of role `role`, needing `needs`, weighed against the
/// destination `against` (its name and what it holds) when one is given, and whether some
/// requirement is definitely unmet there.
pub fn check_text(name: &str, role: Role, needs: &Requirements, against: Option<(&str, &Inventory)>) -> (r: (
    String,
    bool,
))
    ensures
        check_shows(
            r.0@,
            r.1,
            name@,
            role,
            *needs,
            match against {
                Some((dn, held)) => Some((dn@, *held)),
                None => None,
            },
        ),
{
    reveal(check_shows);
    let mut out = String::new();
    push_str(&mut out, "file:  ");
    push_str(&mut out, name);
    push_str(&mut out, " (");
    push_str(&mut out, role.as_str());
    push_str(&mut out, ")\n");
    if needs.engines.len() > 0 {
        push_str(&mut out, "plays: ");
        let e = engines_line(&needs.engines);
        push_str(&mut out, e.as_str());
        push_str(&mut out, "\n");
    }
    push_str(&mut out, "\n");
    let ghost head = out@;
    assert(head =~= "file:  "@ + name@ + " ("@ + role.spec_as_str()@ + ")\n"@ + (if needs.engines@.len() > 0 {
        "plays: "@ + engines_text(needs.engines@) + "\n"@
    } else {
        Seq::empty()
    }) + "\n"@);
    match against {
        None => {
            let report = requirements(needs);
            if report.unicode_len() == 0 {
                push_str(&mut out, "needs nothing from its destination\n");
                assert(out@ =~= head + "needs nothing from its destination\n"@);
            } else {
                push_str(&mut out, report.as_str());
                assert(out@ =~= head + requirements_text(*needs));
            }
            (out, false)
        },
        Some((dn, held)) => {
            push_str(&mut out, "against: ");
            push_str(&mut out, dn);
            push_str(&mut out, " (");
            push_str(&mut out, held.role.as_str());
            push_str(&mut out, ")\n\n");
            let ghost top = out@;
            let findings = weigh(needs, held);
            let ghost lines = comparison_lines(*needs, *held);
            if findings.len() == 0 {
                push_str(&mut out, "everything this file needs, that one has — as far as a file can say\n");
                assert(lines.len() == 0);
                assert(top =~= head + "against: "@ + dn@ + " ("@ + held.role.spec_as_str()@ + ")\n\n"@);
                assert(out@ =~= top + "everything this file needs, that one has — as far as a file can say\n"@);
                return (out, false);
            }
            let (section, failed) = verdict_section(&findings, Ghost(lines));
            push_str(&mut out, section.as_str());
            proof {
                let tt = choose|tt: Seq<char>| #[trigger] verdict_table(tt, lines) && section@ == tt + "\n"@
                    + unknown_note(unknown_count(lines)) + unmet_note(problem_count(lines));
                assert(out@ =~= top + tt + "\n"@ + unknown_note(unknown_count(lines)) + unmet_note(
                    problem_count(lines),
                ));
                assert(top =~= head + "against: "@ + dn@ + " ("@ + held.role.spec_as_str()@ + ")\n\n"@);
            }
            (out, failed)
        },
    }
}

/// Whether `r` is what scanning file `raw` for its requirements gives, read as any one opening
/// of it.
#[verifier::opaque]
pub open spec fn scanned(raw: Seq<u8>, r: Result<Requirements>) -> bool {
    forall|ctx: ScanCtx| #[trigger] opened(ctx, raw) ==> file_outcome(r, ctx)
}

/// Whether `held` is what file `d` holds, as the inventory reads it: its role, its user samples
/// by slot and name, and its edited multisamples, read as any one opening of it.
#[verifier::opaque]
pub open spec fn inventory_of(d: Seq<u8>, held: Inventory) -> bool {
    &&& held.role == role_of(d)
    &&& forall|ctx: ScanCtx| #[trigger]
        opened(ctx, d) ==> {
            &&& held.samples@.len() == ctx.held.len()
            &&& forall|i: int|
                0 <= i < held.samples@.len() ==> #[trigger] held.samples@[i].slot == ((ctx.held[i].0 + 1)
                    % 65536) as u16 && held.samples@[i].name@ == ctx.held[i].1
            &&& held_multisamples(held.multisamples@, multisamples_of(d, ctx.areas))
        }
}

/// A named file as its name and bytes.
pub open spec fn named_bytes(a: Option<(&str, &Raw)>) -> Option<(Seq<char>, Seq<u8>)> {
    match a {
        Some((n, d)) => Some((n@, d@)),
        None => None,
    }
}

/// Whether `(s, failed)` is the check report on file `raw` named `name`, needing `needs` as the
/// requirements scan finds, against the destination `against` (its name and bytes) holding
/// `held`, when one is given.
pub open spec fn check_outcome(
    s: Seq<char>,
    failed: bool,
    name: Seq<char>,
    raw: Seq<u8>,
    against: Option<(Seq<char>, Seq<u8>)>,
    needs: Requirements,
    held: Inventory,
) -> bool {
    &&& scanned(raw, Ok::<Requirements, Error>(needs))
    &&& match against {
        None => check_shows(s, failed, name, role_of(raw), needs, None),
        Some((dn, d)) => inventory_of(d, held) && check_shows(s, failed, name, role_of(raw), needs, Some((dn, held))),
    }
}

/// Report what file `raw` (named `name`) needs of its destination and, given one (its name and
/// bytes), how much of it that destination has; with whether some requirement is definitely
/// unmet there, so the report can serve as a gate.
#[verifier::spinoff_prover]
#[verifier::rlimit(80)]
pub fn check_report(name: &str, raw: &Raw, against: Option<(&str, &Raw)>) -> (r: Result<(String, bool)>)
    ensures
        envelope_error(raw@) is Some ==> r is Err,
        (against matches Some((_, d)) && envelope_error(d@) is Some) ==> r is Err,
        r matches Err(e) ==> scanned(raw@, Err::<Requirements, Error>(e)) || (against matches Some(
            (_, d),
        ) && envelope_error(d@) is Some) || envelope_error(raw@) is Some,
        r is Ok ==> exists|needs: Requirements, held: Inventory|
            #[trigger] check_outcome(
                r->Ok_0.0@,
                r->Ok_0.1,
                name@,
                raw@,
                named_bytes(against),
                needs,
                held,
            ),
{
    let rn = scan_needs(raw);
    let needs = match rn {
        Ok(n) => n,
        Err(e) => {
            return Err(e);
        },
    };
    let role = role_of_raw(raw);
    match against {
        None => {
            let (s, failed) = check_text(name, role, &needs, None);
            proof {
                let held: Inventory = vstd::pervasive::arbitrary();
                assert(named_bytes(against) == None::<(Seq<char>, Seq<u8>)>);
                assert(check_outcome(s@, failed, name@, raw@, named_bytes(against), needs, held));
            }
            let res: Result<(String, bool)> = Ok((s, failed));
            assert(res->Ok_0.0@ == s@ && res->Ok_0.1 == failed);
            assert(exists|n: Requirements, h: Inventory| #[trigger] check_outcome(res->Ok_0.0@, res->Ok_0.1, name@, raw@, named_bytes(against), n, h));
            res
        },
        Some((dn, d)) => {
            let held = match holdings(d) {
                Ok(h) => h,
                Err(e) => {
                    return Err(e);
                },
            };
            let (s, failed) = check_text(name, role, &needs, Some((dn, &held)));
            proof {
                assert(named_bytes(against) == Some((dn@, d@)));
                assert(check_outcome(s@, failed, name@, raw@, named_bytes(against), needs, held));
            }
            let res: Result<(String, bool)> = Ok((s, failed));
            assert(res->Ok_0.0@ == s@ && res->Ok_0.1 == failed);
            assert(exists|n: Requirements, h: Inventory| #[trigger] check_outcome(res->Ok_0.0@, res->Ok_0.1, name@, raw@, named_bytes(against), n, h));
            res
        },
    }
}

fn scan_needs(raw: &Raw) -> (r: Result<Requirements>)
    ensures
        scanned(raw@, r),
        envelope_error(raw@) is Some ==> r is Err,
{
    let r = requirements_of(raw);
    assert(scanned(raw@, r)) by {
        reveal(scanned);
    }
    r
}

fn holdings(raw: &Raw) -> (r: Result<Inventory>)
    ensures
        envelope_error(raw@) is Some ==> r is Err,
        envelope_error(raw@) is None ==> (r matches Ok(h) && inventory_of(raw@, h)),
{
    let r = inventory(raw);
    assert(r matches Ok(h) ==> inventory_of(raw@, h)) by {
        reveal(inventory_of);
    }
    r
}

fn role_of_raw(raw: &Raw) -> (r: Role)
    ensures
        r == role_of(raw@),
{
    crate::role::of(raw)
}

} // verus!

verus! {

/// A tempo stored in hundredths of a beat per minute, with two decimals: `12000` is `120.00`.
pub open spec fn bpm_text(tempo: u16) -> Seq<char> {
    decimal((tempo / 100) as nat) + "."@ + padded_decimal((tempo % 100) as nat, 2)
}

/// What a zone's `on` column shows.
pub open spec fn state_cell(z: Zone) -> Seq<char> {
    if !z.enabled {
        "off"@
    } else if z.muted {
        "mut"@
    } else {
        "on"@
    }
}

/// What a zone's `type` column shows: the engine, or the raw MSB of an address no engine claims.
pub open spec fn type_cell(t: ToneRef) -> Seq<char> {
    if t.spec_tone_type() == ToneType::Unknown {
        "MSB "@ + decimal(t.address.msb as nat)
    } else {
        t.spec_tone_type().spec_label()@
    }
}

/// What a zone's `bank` column shows: the bank, or the raw LSB of one not identified.
pub open spec fn bank_cell(t: ToneRef) -> Seq<char> {
    match bank_label(t.spec_tone_type(), t.address.msb, t.address.lsb) {
        Some(b) => b@,
        None => "LSB "@ + decimal(t.address.lsb as nat),
    }
}

/// What a zone's `tone` column shows: the tone's name, or its program number.
pub open spec fn tone_cell(t: ToneRef) -> Seq<char> {
    match t.name {
        Some(n) => n@,
        None => "PC "@ + padded_decimal(t.address.pc as nat, 3),
    }
}

/// A zone's row in the scene table.
pub open spec fn zone_row(z: Zone) -> Seq<Seq<char>> {
    seq![
        decimal(z.number as nat + 1),
        state_cell(z),
        type_cell(z.tone),
        bank_cell(z.tone),
        tone_cell(z.tone),
        note_text(z.key_low) + ".."@ + note_text(z.key_high),
        decimal(z.velocity_low as nat) + ".."@ + decimal(z.velocity_high as nat),
        decimal(z.level as nat),
        pan_text(z.pan),
        signed_text(z.transpose),
        signed_text(z.octave),
        decimal(z.midi_channel as nat + 1),
    ]
}

/// The zones a scene report lists: the enabled ones, or all when `all`.
pub open spec fn listed(zones: Seq<Zone>, all: bool) -> Seq<Zone>
    decreases zones.len(),
{
    if zones.len() == 0 {
        Seq::empty()
    } else if zones.last().enabled || all {
        listed(zones.drop_last(), all).push(zones.last())
    } else {
        listed(zones.drop_last(), all)
    }
}

/// The numbers (from 1) of the zones among `zones` that run the arpeggiator, comma-separated.
pub open spec fn arp_text(zones: Seq<Zone>) -> Seq<char>
    decreases zones.len(),
{
    if zones.len() == 0 {
        Seq::empty()
    } else if !zones.last().arpeggio {
        arp_text(zones.drop_last())
    } else if arp_text(zones.drop_last()).len() == 0 {
        decimal(zones.last().number as nat + 1)
    } else {
        arp_text(zones.drop_last()) + ", "@ + decimal(zones.last().number as nat + 1)
    }
}

/// The scene table's column headers.
pub open spec fn scene_headers() -> Seq<Seq<char>> {
    seq![
        "zone"@, "on"@, "type"@, "bank"@, "tone"@, "range"@, "vel"@, "level"@, "pan"@, "trans"@, "oct"@,
        "ch"@,
    ]
}

/// The scene table's column alignments.
pub open spec fn scene_aligns() -> Seq<Align> {
    seq![
        Align::Right,
        Align::Left,
        Align::Left,
        Align::Left,
        Align::Left,
        Align::Right,
        Align::Right,
        Align::Right,
        Align::Right,
        Align::Right,
        Align::Right,
        Align::Right,
    ]
}

/// Whether `tt` is the table of the zones `zones`.
pub open spec fn zone_table(tt: Seq<char>, zones: Seq<Zone>) -> bool {
    shows_table(tt, scene_headers(), scene_aligns(), zones.map_values(|z: Zone| zone_row(z)))
}

/// Whether `text` is the report on scene `scene`, numbered `number`: its title line with tempo
/// and level, its comment, a table of its enabled zones (all of them when `all`), and the zones
/// among those that run the arpeggiator.
pub open spec fn scene_shows(text: Seq<char>, scene: Scene, number: usize, all: bool) -> bool {
    let zs = listed(scene.zones@, all);
    exists|tt: Seq<char>|
        #[trigger] zone_table(tt, zs) && text == "Scene "@ + decimal(number as nat) + ": "@ + scene.name@
            + "   "@ + bpm_text(scene.tempo) + " BPM   level "@ + decimal(scene.level as nat) + "\n"@
            + (if scene.comment@.len() > 0 {
            "note: "@ + scene.comment@ + "\n"@
        } else {
            Seq::empty()
        }) + tt + (if arp_text(zs).len() > 0 {
            "arpeggio: zone "@ + arp_text(zs) + "\n"@
        } else {
            Seq::empty()
        })
}

fn zone_cells(z: &Zone) -> (v: Vec<String>)
    ensures
        v@.map_values(|c: String| c@) == zone_row(*z),
{
    let mut number = String::new();
    push_decimal(&mut number, z.number as u64 + 1);
    let mut keys = note(z.key_low);
    push_str(&mut keys, "..");
    let high = note(z.key_high);
    push_str(&mut keys, high.as_str());
    let mut level = String::new();
    push_decimal(&mut level, z.level as u64);
    let mut channel = String::new();
    push_decimal(&mut channel, z.midi_channel as u64 + 1);
    let v = vec![
        number,
        zone_state(z).to_string(),
        tone_type(&z.tone),
        bank(&z.tone),
        tone(&z.tone),
        keys,
        range(z.velocity_low as u64, z.velocity_high as u64),
        level,
        pan(z.pan),
        signed(z.transpose),
        signed(z.octave),
        channel,
    ];
    assert(v@.map_values(|c: String| c@) =~= zone_row(*z));
    v
}

/// Report one scene, numbered `number`: its title with tempo and level, its comment, a table of
/// its enabled zones (every zone when `all`), and which of those run the arpeggiator.
pub fn scene_report(scene: &Scene, number: usize, all: bool) -> (s: String)
    ensures
        scene_shows(s@, *scene, number, all),
{
    let mut out = String::new();
    push_str(&mut out, "Scene ");
    push_decimal(&mut out, number as u64);
    push_str(&mut out, ": ");
    push_str(&mut out, scene.name.as_str());
    push_str(&mut out, "   ");
    push_decimal(&mut out, (scene.tempo / 100) as u64);
    push_str(&mut out, ".");
    push_padded_decimal(&mut out, (scene.tempo % 100) as u64, 2);
    push_str(&mut out, " BPM   level ");
    push_decimal(&mut out, scene.level as u64);
    push_str(&mut out, "\n");
    if scene.comment.unicode_len() > 0 {
        push_str(&mut out, "note: ");
        push_str(&mut out, scene.comment.as_str());
        push_str(&mut out, "\n");
    }
    let ghost top = out@;
    assert(top =~= "Scene "@ + decimal(number as nat) + ": "@ + scene.name@ + "   "@ + bpm_text(scene.tempo)
        + " BPM   level "@ + decimal(scene.level as nat) + "\n"@ + (if scene.comment@.len() > 0 {
        "note: "@ + scene.comment@ + "\n"@
    } else {
        Seq::empty()
    }));
    let mut table = Table::new(
        vec![
            ("zone", Align::Right),
            ("on", Align::Left),
            ("type", Align::Left),
            ("bank", Align::Left),
            ("tone", Align::Left),
            ("range", Align::Right),
            ("vel", Align::Right),
            ("level", Align::Right),
            ("pan", Align::Right),
            ("trans", Align::Right),
            ("oct", Align::Right),
            ("ch", Align::Right),
        ],
    );
    let mut arps = String::new();
    assert(table.columns@.map_values(|c: (&'static str, Align)| c.0@) =~= scene_headers());
    assert(table.columns@.map_values(|c: (&'static str, Align)| c.1) =~= scene_aligns());
    assert(row_texts(table) =~= Seq::<Seq<Seq<char>>>::empty());
    assert(scene.zones@.take(0) =~= Seq::<Zone>::empty());
    let mut i: usize = 0;
    while i < scene.zones.len()
        invariant
            i <= scene.zones@.len(),
            table.columns@.map_values(|c: (&'static str, Align)| c.0@) == scene_headers(),
            table.columns@.map_values(|c: (&'static str, Align)| c.1) == scene_aligns(),
            row_texts(table) == listed(scene.zones@.take(i as int), all).map_values(|z: Zone| zone_row(z)),
            arps@ == arp_text(listed(scene.zones@.take(i as int), all)),
        decreases scene.zones@.len() - i,
    {
        let z = &scene.zones[i];
        assert(scene.zones@.take(i + 1).drop_last() =~= scene.zones@.take(i as int));
        assert(scene.zones@.take(i + 1).last() == *z);
        let ghost before = listed(scene.zones@.take(i as int), all);
        if z.enabled || all {
            assert(listed(scene.zones@.take(i + 1), all) == before.push(*z));
            assert(before.push(*z).drop_last() =~= before);
            let cells = zone_cells(z);
            let ghost rows0 = table.rows@;
            table.row(cells);
            assert(table.rows@ == rows0.push(cells));
            assert(row_texts(table) =~= before.map_values(|z: Zone| zone_row(z)).push(zone_row(*z)));
            assert(before.push(*z).map_values(|z: Zone| zone_row(z)) =~= before.map_values(|z: Zone| zone_row(z)).push(zone_row(*z)));
            if z.arpeggio {
                if arps.unicode_len() > 0 {
                    push_str(&mut arps, ", ");
                }
                push_decimal(&mut arps, z.number as u64 + 1);
            }
        } else {
            assert(listed(scene.zones@.take(i + 1), all) == before);
        }
        i = i + 1;
    }
    assert(scene.zones@.take(scene.zones@.len() as int) =~= scene.zones@);
    let t = table.render();
    push_str(&mut out, t.as_str());
    if arps.unicode_len() > 0 {
        push_str(&mut out, "arpeggio: zone ");
        push_str(&mut out, arps.as_str());
        push_str(&mut out, "\n");
    }
    proof {
        let zs = listed(scene.zones@, all);
        let tt = t@;
        assert(out@ =~= top + tt + (if arp_text(zs).len() > 0 {
            "arpeggio: zone "@ + arp_text(zs) + "\n"@
        } else {
            Seq::empty()
        }));
        assert(headers(table) == scene_headers());
        assert(aligns(table) == scene_aligns());
        assert(zone_table(t@, zs));
    }
    out
}

} // verus!

verus! {

/// The lines of problems `ps`, one each.
pub open spec fn problem_lines(ps: Seq<crate::verify::Problem>) -> Seq<char>
    decreases ps.len(),
{
    if ps.len() == 0 {
        Seq::empty()
    } else {
        problem_lines(ps.drop_last()) + "  problem: "@ + crate::verify::problem_text(ps.last()) + "\n"@
    }
}

/// How a check report reads: how many checksums were checked across how many areas, a note
/// when the container stores none, each problem, then `OK` or how many problems were found.
pub open spec fn verify_lines(r: crate::verify::Report) -> Seq<char> {
    let n = r.problems@.len();
    "checked "@ + decimal(r.checked as nat) + " record checksum"@ + plural_text(r.checked as int) + " across "@
        + decimal(r.areas_with_checksums as nat) + " area"@ + plural_text(r.areas_with_checksums as int) + "\n"@
        + (if r.areas_with_checksums == 0 {
        "(this container stores no per-record checksums)\n"@
    } else {
        Seq::empty()
    }) + problem_lines(r.problems@) + if n == 0 {
        "OK\n"@
    } else {
        decimal(n) + " problem"@ + plural_text(n as int) + " found"@
    }
}

/// The text of a check report, and whether the file passed.
pub fn verify_text(report: &crate::verify::Report) -> (r: (String, bool))
    ensures
        r.0@ == verify_lines(*report),
        r.1 == (report.problems@.len() == 0),
{
    let mut s = String::new();
    push_str(&mut s, "checked ");
    push_decimal(&mut s, report.checked as u64);
    push_str(&mut s, " record checksum");
    push_str(&mut s, plural(report.checked));
    push_str(&mut s, " across ");
    push_decimal(&mut s, report.areas_with_checksums as u64);
    push_str(&mut s, " area");
    push_str(&mut s, plural(report.areas_with_checksums));
    push_str(&mut s, "\n");
    if report.areas_with_checksums == 0 {
        push_str(&mut s, "(this container stores no per-record checksums)\n");
    }
    let ghost head = s@;
    let mut i: usize = 0;
    while i < report.problems.len()
        invariant
            i <= report.problems@.len(),
            s@ == head + problem_lines(report.problems@.take(i as int)),
        decreases report.problems@.len() - i,
    {
        assert(report.problems@.take(i + 1).drop_last() =~= report.problems@.take(i as int));
        push_str(&mut s, "  problem: ");
        let m = report.problems[i].message();
        push_str(&mut s, m.as_str());
        push_str(&mut s, "\n");
        i = i + 1;
    }
    assert(report.problems@.take(report.problems@.len() as int) =~= report.problems@);
    let n = report.problems.len();
    if n == 0 {
        push_str(&mut s, "OK\n");
    } else {
        push_decimal(&mut s, n as u64);
        push_str(&mut s, " problem");
        push_str(&mut s, plural(n));
        push_str(&mut s, " found");
    }
    (s, n == 0)
}

} // verus!

