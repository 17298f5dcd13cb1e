//! Marking a rebuilt bank so the instrument shows which copy of a sound it plays.

use vstd::prelude::*;

use crate::address::{
    area_at, is_row, lemma_row_bytes, name_field, row_paired, row_paired_bytes, AreaSpec,
    AREA_COUNT, NAME_LEN,
};
use crate::bytes::{le32, read_u32, splice};
use crate::container::svd::{envelope_error, first_area, fits, parses_as};
use crate::container::{Area, Raw, Svd};
use crate::diff::{beyond, block};
use crate::text::{field_text, padded_decimal, push_padded_decimal, push_str, trim_end};
use crate::codec::{
    ascii_bytes, field_error, read_scenes, record_end, scene_area, scene_offset, scenes_in,
    set_scene_name, text_at, write_field, prfa_tag, decodes_scene,
};
use crate::error::Field;
use super::{extract_outcome, extract_scenes};
use crate::{Error, Result};

verus! {

/// Where the name sits within the records of bank row `i`.
pub open spec fn row_name_offset(i: int) -> int {
    if i == 6 {
        0x1c44
    } else if i == 8 {
        0x10
    } else {
        0
    }
}

/// Where the name of record `j` starts within a table body of `size`-byte records.
pub open spec fn name_at(size: int, off: int, j: int) -> int {
    16 + j * size + off
}

/// The first of records `0..n` whose name runs past a body of `len` bytes.
pub open spec fn name_cut(len: int, size: int, off: int, n: int) -> Option<int>
    decreases n,
{
    if n <= 0 {
        None
    } else {
        match name_cut(len, size, off, n - 1) {
            Some(k) => Some(k),
            None => if name_at(size, off, n - 1) + NAME_LEN > len {
                Some(n - 1)
            } else {
                None
            },
        }
    }
}

/// The marked name of record `j`: `CNY` and its number from 1, then the name it had.
pub open spec fn canary_text(j: int, field: Seq<u8>, swapped: bool) -> Seq<char> {
    "CNY"@ + padded_decimal((j + 1) as nat, 2) + " "@ + field_text(name_field(field, swapped))
}

/// The name field holding the marked name of record `j`.
pub open spec fn canary_field(j: int, field: Seq<u8>, swapped: bool) -> Seq<u8> {
    name_field(vstd::utf8::encode_utf8(canary_text(j, field, swapped)), swapped)
}

/// A write of `.1` at file offset `.0`.
pub type Patch = (int, Seq<u8>);

/// The renames of every record of area `tag` of row `i` of file `s`, or why they cannot be made.
pub open spec fn area_marks(s: Seq<u8>, areas: Seq<Area>, i: int, tag: Seq<u8>) -> Result<Seq<Patch>> {
    match first_area(areas, tag) {
        None => Ok(Seq::empty()),
        Some(k) => {
            let a = areas[k];
            if !fits(a, s.len()) {
                Err(beyond(a, s.len() as int))
            } else {
                let body = block(s, a);
                if body.len() < 4 {
                    Err(Error::AreaTruncated { tag: a.tag, at: 0 })
                } else if body.len() < 8 {
                    Err(Error::AreaTruncated { tag: a.tag, at: 4 })
                } else {
                    table_marks(a, body, i)
                }
            }
        },
    }
}

/// The renames of every record of the table body `body` of area `a`, which holds records of
/// row `i`.
pub open spec fn table_marks(a: Area, body: Seq<u8>, i: int) -> Result<Seq<Patch>> {
    let count = le32(body, 0) as int;
    let size = le32(body, 4) as int;
    let off = row_name_offset(i);
    if size < off + NAME_LEN {
        Err(Error::NameFieldShort { tag: a.tag })
    } else {
        match name_cut(body.len() as int, size, off, count) {
            Some(j) => Err(Error::RecordTruncated { tag: a.tag, record: (j + 1) as usize }),
            None => Ok(Seq::new(count as nat, |j: int| mark_of(a, body, i, j))),
        }
    }
}

/// The rename of record `j` of the table body `body` of area `a` (records of row `i`).
pub open spec fn mark_of(a: Area, body: Seq<u8>, i: int, j: int) -> Patch {
    let size = le32(body, 4) as int;
    let at = name_at(size, row_name_offset(i), j);
    (a.offset + at, canary_field(j, body.subrange(at, at + NAME_LEN), i == 6))
}

/// The renames of the areas `0..k` of row `i`.
pub open spec fn row_marks(s: Seq<u8>, areas: Seq<Area>, i: int, k: int) -> Result<Seq<Patch>>
    decreases k,
{
    if k <= 0 {
        Ok(Seq::empty())
    } else {
        match row_marks(s, areas, i, k - 1) {
            Err(e) => Err(e),
            Ok(ps) => match area_marks(s, areas, i, row_paired(i)[k - 1]) {
                Err(e) => Err(e),
                Ok(more) => Ok(ps + more),
            },
        }
    }
}

/// The renames of every bundled record of rows `0..n`.
pub open spec fn all_marks(s: Seq<u8>, areas: Seq<Area>, n: int) -> Result<Seq<Patch>>
    decreases n,
{
    if n <= 0 {
        Ok(Seq::empty())
    } else {
        match all_marks(s, areas, n - 1) {
            Err(e) => Err(e),
            Ok(ps) => match row_marks(s, areas, n - 1, row_paired(n - 1).len() as int) {
                Err(e) => Err(e),
                Ok(more) => Ok(ps + more),
            },
        }
    }
}

/// `s` with every patch written, in order.
pub open spec fn patched(s: Seq<u8>, ps: Seq<Patch>) -> Seq<u8>
    decreases ps.len(),
{
    if ps.len() == 0 {
        s
    } else {
        splice(patched(s, ps.drop_last()), ps.last().0, ps.last().1)
    }
}


/// Renames waiting to be written: a file offset and a name field.
pub open spec fn patches_view(v: Seq<(usize, [u8; 16])>) -> Seq<Patch> {
    v.map_values(|p: (usize, [u8; 16])| (p.0 as int, p.1@))
}

proof fn lemma_name_cut(len: int, size: int, off: int, k: int, n: int)
    requires
        0 <= k <= n,
        name_cut(len, size, off, k) is Some,
    ensures
        name_cut(len, size, off, n) == name_cut(len, size, off, k),
    decreases n - k,
{
    if k < n {
        lemma_name_cut(len, size, off, k, n - 1);
    }
}

/// Queue the renames of every record of area `tag`, which holds records of row `i`.
fn push_area_marks(
    raw: &Raw,
    svd: &Svd,
    row: &AreaSpec,
    i: usize,
    tag: [u8; 4],
    out: &mut Vec<(usize, [u8; 16])>,
) -> (r: Result<()>)
    requires
        parses_as(*svd, raw@),
        is_row(*row, i as int),
        forall|k: int| 0 <= k < old(out)@.len() ==> (#[trigger] old(out)@[k]).0 + NAME_LEN <= raw@.len(),
    ensures
        forall|k: int| 0 <= k < final(out)@.len() ==> (#[trigger] final(out)@[k]).0 + NAME_LEN <= raw@.len(),
        match area_marks(raw@, svd.areas@, i as int, tag@) {
            Ok(ps) => r is Ok && patches_view(final(out)@) == patches_view(old(out)@) + ps,
            Err(e) => r == Err::<(), Error>(e),
        },
{
    let area = match svd.area(&tag) {
        None => {
            assert(patches_view(out@) =~= patches_view(out@) + Seq::<Patch>::empty());
            return Ok(());
        },
        Some(a) => a,
    };
    let body = svd.area_bytes(raw, area)?;
    let count = match read_u32(body, 0) {
        Some(v) => v,
        None => {
            return Err(Error::AreaTruncated { tag: area.tag, at: 0 });
        },
    };
    let size = match read_u32(body, 4) {
        Some(v) => v,
        None => {
            return Err(Error::AreaTruncated { tag: area.tag, at: 4 });
        },
    };
    let off = row.name_offset;
    if (size as u64) < off as u64 + 16 {
        return Err(Error::NameFieldShort { tag: area.tag });
    }
    let ghost len = body@.len() as int;
    let ghost start = patches_view(out@);
    let ghost a = *area;
    let total = raw.len();
    assert(area_marks(raw@, svd.areas@, i as int, tag@) == table_marks(a, body@, i as int));
    let mut j: u32 = 0;
    while j < count
        invariant
            j <= count,
            count == le32(body@, 0),
            size == le32(body@, 4),
            off == row_name_offset(i as int),
            is_row(*row, i as int),
            size >= off + NAME_LEN,
            len == body@.len(),
            body@ == block(raw@, a),
            fits(a, raw@.len()),
            total == raw@.len(),
            *area == a,
            a.size == body@.len(),
            area_marks(raw@, svd.areas@, i as int, tag@) == table_marks(a, body@, i as int),
            name_cut(len, size as int, off as int, j as int) is None,
            patches_view(out@) == start + Seq::new(j as nat, |k: int| mark_of(a, body@, i as int, k)),
            forall|k: int| 0 <= k < out@.len() ==> (#[trigger] out@[k]).0 + NAME_LEN <= raw@.len(),
        decreases count - j,
    {
        assert((j as int) * (size as int) <= 0xffff_ffffint * 0xffff_ffffint) by (nonlinear_arith)
            requires
                j <= 0xffff_ffffint,
                size <= 0xffff_ffffint,
                j >= 0,
                size >= 0,
        ;
        let prod: u64 = j as u64 * size as u64;
        let at64: u64 = 16 + prod + off as u64;
        assert(at64 == name_at(size as int, off as int, j as int));
        if at64 + 16 > body.len() as u64 {
            assert(name_cut(len, size as int, off as int, j + 1) == Some(j as int));
            proof {
                lemma_name_cut(len, size as int, off as int, j + 1, count as int);
            }
            return Err(Error::RecordTruncated { tag: area.tag, record: j as usize + 1 });
        }
        let at = at64 as usize;
        let field = vstd::slice::slice_subrange(body, at, at + 16);
        let mut text = String::new();
        push_str(&mut text, "CNY");
        push_padded_decimal(&mut text, j as u64 + 1, 2);
        push_str(&mut text, " ");
        let name = row.decode_name(field);
        push_str(&mut text, name.as_str());
        let text_str = text.as_str();
        assert(text_str@ == text@);
        let marked = row.encode_name(text_str);
        assert(text@ == canary_text(j as int, field@, i == 6));
        let ghost before = out@;
        assert(field@ == body@.subrange(at as int, at + NAME_LEN));
        assert(marked@ == canary_field(j as int, field@, i == 6));
        assert((area.offset as usize + at) as int == mark_of(a, body@, i as int, j as int).0);
        assert(marked@ == mark_of(a, body@, i as int, j as int).1);
        out.push((area.offset as usize + at, marked));
        assert(patches_view(out@) =~= patches_view(before).push(mark_of(a, body@, i as int, j as int)));
        j = j + 1;
        assert(patches_view(out@) =~= start + Seq::new(j as nat, |k: int| mark_of(a, body@, i as int, k)));
    }
    assert(Seq::new(count as nat, |k: int| mark_of(a, body@, i as int, k)) =~= Seq::new(j as nat, |k: int| mark_of(a, body@, i as int, k)));
    Ok(())
}


proof fn lemma_row_marks_err(s: Seq<u8>, areas: Seq<Area>, i: int, k: int, n: int)
    requires
        0 <= k <= n,
        row_marks(s, areas, i, k) is Err,
    ensures
        row_marks(s, areas, i, n) == row_marks(s, areas, i, k),
    decreases n - k,
{
    if k < n {
        lemma_row_marks_err(s, areas, i, k, n - 1);
    }
}

proof fn lemma_all_marks_err(s: Seq<u8>, areas: Seq<Area>, k: int, n: int)
    requires
        0 <= k <= n,
        all_marks(s, areas, k) is Err,
    ensures
        all_marks(s, areas, n) == all_marks(s, areas, k),
    decreases n - k,
{
    if k < n {
        lemma_all_marks_err(s, areas, k, n - 1);
    }
}

/// Queue the renames of every record of every area of row `i`.
fn push_row_marks(raw: &Raw, svd: &Svd, i: usize, out: &mut Vec<(usize, [u8; 16])>) -> (r: Result<()>)
    requires
        parses_as(*svd, raw@),
        i < AREA_COUNT,
        forall|k: int| 0 <= k < old(out)@.len() ==> (#[trigger] old(out)@[k]).0 + NAME_LEN <= raw@.len(),
    ensures
        forall|k: int| 0 <= k < final(out)@.len() ==> (#[trigger] final(out)@[k]).0 + NAME_LEN <= raw@.len(),
        match row_marks(raw@, svd.areas@, i as int, row_paired(i as int).len() as int) {
            Ok(ps) => r is Ok && patches_view(final(out)@) == patches_view(old(out)@) + ps,
            Err(e) => r == Err::<(), Error>(e),
        },
{
    let row = area_at(i);
    proof {
        lemma_row_bytes(row, i as int);
    }
    let tags = row.paired();
    let ghost start = patches_view(out@);
    let mut k: usize = 0;
    while k < tags.len()
        invariant
            k <= tags@.len(),
            tags@.len() == row_paired(i as int).len(),
            forall|m: int| 0 <= m < tags@.len() ==> (#[trigger] tags@[m])@ == row_paired(i as int)[m],
            parses_as(*svd, raw@),
            is_row(row, i as int),
            row_marks(raw@, svd.areas@, i as int, k as int) matches Ok(ps) && patches_view(out@) == start + ps,
            forall|m: int| 0 <= m < out@.len() ==> (#[trigger] out@[m]).0 + NAME_LEN <= raw@.len(),
        decreases tags@.len() - k,
    {
        let ghost before = patches_view(out@);
        let ghost ps = row_marks(raw@, svd.areas@, i as int, k as int)->Ok_0;
        assert(tags@[k as int]@ == row_paired(i as int)[k as int]);
        match push_area_marks(raw, svd, &row, i, tags[k], out) {
            Ok(()) => {},
            Err(e) => {
                proof {
                    lemma_row_marks_err(raw@, svd.areas@, i as int, k + 1, tags@.len() as int);
                }
                return Err(e);
            },
        }
        k = k + 1;
        assert(patches_view(out@) =~= start + row_marks(raw@, svd.areas@, i as int, k as int)->Ok_0);
    }
    Ok(())
}

/// Give every bundled record a `CNY01`, `CNY02`, … prefix on its name, leaving the sound itself
/// untouched. Seeing those names on the instrument proves it read the rebuilt bundle rather than
/// resolving a sound it already had. Nothing is written unless every name can be.
fn mark_bundled_tone_names(raw: &mut Raw) -> (r: Result<()>)
    ensures
        envelope_error(old(raw)@) is Some ==> r is Err && final(raw)@ == old(raw)@,
        forall|svd: Svd| #[trigger]
            parses_as(svd, old(raw)@) ==> match all_marks(old(raw)@, svd.areas@, AREA_COUNT as int) {
                Ok(ps) => r is Ok && final(raw)@ == patched(old(raw)@, ps),
                Err(e) => r == Err::<(), Error>(e) && final(raw)@ == old(raw)@,
            },
{
    let svd = Svd::parse(raw)?;
    proof {
        assert forall|other: Svd| #[trigger] parses_as(other, raw@) implies other.areas@
            == svd.areas@ by {
            crate::diff::lemma_areas_unique(other, svd, raw@);
        }
    }
    let mut names: Vec<(usize, [u8; 16])> = Vec::new();
    let mut i: usize = 0;
    while i < AREA_COUNT
        invariant
            i <= AREA_COUNT,
            parses_as(svd, raw@),
            raw@ == old(raw)@,
            forall|other: Svd| #[trigger] parses_as(other, raw@) ==> other.areas@ == svd.areas@,
            all_marks(raw@, svd.areas@, i as int) matches Ok(ps) && patches_view(names@) == ps,
            forall|m: int| 0 <= m < names@.len() ==> (#[trigger] names@[m]).0 + NAME_LEN <= raw@.len(),
        decreases AREA_COUNT - i,
    {
        match push_row_marks(raw, &svd, i, &mut names) {
            Ok(()) => {},
            Err(e) => {
                proof {
                    lemma_all_marks_err(raw@, svd.areas@, i + 1, AREA_COUNT as int);
                }
                return Err(e);
            },
        }
        i = i + 1;
        assert(patches_view(names@) =~= all_marks(raw@, svd.areas@, i as int)->Ok_0);
    }
    let ghost ps = patches_view(names@);
    let ghost orig = raw@;
    let mut k: usize = 0;
    while k < names.len()
        invariant
            k <= names@.len(),
            ps == patches_view(names@),
            raw@.len() == orig.len(),
            raw@ == patched(orig, ps.subrange(0, k as int)),
            forall|m: int| 0 <= m < names@.len() ==> (#[trigger] names@[m]).0 + NAME_LEN <= orig.len(),
        decreases names@.len() - k,
    {
        let (at, name) = names[k];
        raw.patch_bytes(at, name.as_slice());
        assert(ps.subrange(0, k + 1).drop_last() =~= ps.subrange(0, k as int));
        k = k + 1;
    }
    assert(ps.subrange(0, k as int) =~= ps);
    Ok(())
}


/// The name of scene `n` (numbered from 1) of file `s` as the scene list reads it, or why the
/// scene list cannot be read or has no such scene.
pub open spec fn scene_name(s: Seq<u8>, n: int) -> Result<Seq<char>> {
    match scene_area(s) {
        Err(e) => Err(e),
        Ok((start, body)) => if le32(body, 4) == 0 {
            Err(Error::ZeroRecordSize { tag: prfa_tag() })
        } else {
            let p = scenes_in(body);
            if 1 <= n <= p.len() {
                Ok(
                    text_at(
                        body.subrange(
                            p[n - 1],
                            record_end(body.len() as int, p[n - 1], le32(body, 4) as int),
                        ),
                        0,
                        NAME_LEN as int,
                    ),
                )
            } else {
                Err(Error::SceneOutOfRange { scene: n as usize, count: p.len() as usize })
            }
        },
    }
}

/// Whether `r` is what marking every bundled record of file `y` gives.
pub open spec fn marked_outcome(r: Result<Raw>, y: Seq<u8>) -> bool {
    &&& envelope_error(y) is Some ==> r is Err
    &&& forall|svd: Svd| #[trigger]
        parses_as(svd, y) ==> match all_marks(y, svd.areas@, AREA_COUNT as int) {
            Ok(ps) => r matches Ok(o) && o@ == patched(y, ps),
            Err(e) => r == Err::<Raw, Error>(e),
        }
}

/// Whether `r` is what renaming the one scene of extract `x` to `name` and marking its bundled
/// records gives.
pub open spec fn canary_outcome(r: Result<Raw>, x: Seq<u8>, name: Seq<char>) -> bool {
    match field_error(name, NAME_LEN, Field::Name) {
        Some(e) => r == Err::<Raw, Error>(e),
        None => if envelope_error(x) is Some {
            r is Err
        } else {
            match scene_offset(x, 1) {
                Err(e) => r == Err::<Raw, Error>(e),
                Ok(at) => marked_outcome(
                    r,
                    write_field(x, at, NAME_LEN as int, ascii_bytes(trim_end(name))),
                ),
            }
        },
    }
}

/// Extract one scene and mark it: its name and every bundled record's name get a visible `CNY`
/// prefix, and nothing else changes. Loading it on the instrument shows whether the bundled
/// records are what plays.
pub fn canary_scene(raw: &Raw, scene_number: usize) -> (r: Result<Raw>)
    ensures
        envelope_error(raw@) is Some ==> r is Err,
        envelope_error(raw@) is None ==> match scene_name(raw@, scene_number as int) {
            Err(e) => r == Err::<Raw, Error>(e),
            Ok(name) => forall|svd: Svd| #[trigger]
                parses_as(svd, raw@) ==> exists|x: Result<Raw>|
                    extract_outcome(x, raw@, svd.areas@, seq![scene_number]) && match x {
                        Err(e) => r == Err::<Raw, Error>(e),
                        Ok(ext) => canary_outcome(r, ext@, "CNY "@ + name),
                    },
        },
{
    let scenes = read_scenes(raw)?;
    if scene_number < 1 || scene_number > scenes.len() {
        return Err(Error::SceneOutOfRange { scene: scene_number, count: scenes.len() });
    }
    let original = &scenes[scene_number - 1].name;
    let numbers = [scene_number];
    let extracted = extract_scenes(raw, numbers.as_slice());
    assert(numbers@ =~= seq![scene_number]);
    let mut canary = match extracted {
        Ok(c) => c,
        Err(e) => {
            return Err(e);
        },
    };
    let ghost x = canary@;
    let mut name = String::new();
    push_str(&mut name, "CNY ");
    push_str(&mut name, original.as_str());
    set_scene_name(&mut canary, 1, name.as_str())?;
    let ghost y = canary@;
    mark_bundled_tone_names(&mut canary)?;
    Ok(canary)
}

} // verus!
