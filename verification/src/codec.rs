//! Mapping between container bytes and the model types: scene names and comments, the zones of a
//! scene, and the names of the user tones a file bundles.
//!
//! The handful of offsets named here were found by controlled single-variable edits: a scene
//! record opens with its 16-byte name, its 64-byte comment sits at `+0x40`, and the zone tables
//! follow (see [`crate::container::zone`]).

use vstd::prelude::*;
use vstd::string::StringSliceAdditionalSpecFns;

use crate::address::{
    area_at, bank_row, first_row, is_row, lemma_first_row, name_field, record_index, resolve,
    row_tag, row_type, tag4, AreaSpec, AREA_COUNT,
};
use crate::bytes::{le32, read_u32, same_tag};
use crate::container::svd::{
    area_count, envelope_error, first_area, first_entry, is_entry, lemma_first_area, lemma_first_entry,
    parses_as, PREAMBLE_LEN,
};
use crate::container::records::{data_start, whole_records};
use crate::container::zone::zone_marker;
use crate::container::{Raw, RawZone, RecordTable, Svd, ZoneSettings};
use crate::model::{Scene, ToneRef, ToneType, Zone};
use crate::text::{
    ascii_lower, ascii_trim, field_text, printable_ascii, str_trim, str_trim_end, to_ascii_lower,
    trim, trim_end, trimmed_len,
};
use crate::{Error, Field, Result};

verus! {

/// Length of a scene's name field.
pub const NAME_LEN: usize = 16;

/// Record offset of a scene's comment field.
pub const COMMENT_OFFSET: usize = 0x40;

/// Length of a scene's comment field.
pub const COMMENT_LEN: usize = 64;

/// The performance area opens with a 16-byte header: scene count at `+0`, record size at `+4`.
pub const AREA_HEADER_LEN: usize = 0x10;

/// Zone slots in every scene.
pub const ZONE_COUNT: usize = 16;

/// `s` with every ASCII capital lowered (`str::to_ascii_lowercase`).
pub open spec fn lowered(s: Seq<char>) -> Seq<char> {
    Seq::new(s.len(), |i: int| ascii_lower(s[i]))
}

/// Whether `s` begins with `p`.
pub open spec fn starts_with(s: Seq<char>, p: Seq<char>) -> bool {
    p.len() <= s.len() && s.subrange(0, p.len() as int) == p
}

pub open spec fn initial_word() -> Seq<char> {
    seq!['i', 'n', 'i', 't', 'i', 'a', 'l']
}

pub open spec fn init_word() -> Seq<char> {
    seq!['i', 'n', 'i', 't']
}

/// Whether a record name is the factory's placeholder for an unused slot: blank, `INITIAL` or
/// `INIT` alone or followed by a word (`INITIAL TONE`, `INIT TONE`), `INITTONE`, `INITSCENE`, or
/// a row of three or four dashes, ignoring case and surrounding whitespace.
pub open spec fn is_placeholder(name: Seq<char>) -> bool {
    let t = trim(name);
    let l = lowered(t);
    ||| t.len() == 0
    ||| l == initial_word()
    ||| starts_with(l, initial_word().push(' '))
    ||| l == init_word()
    ||| starts_with(l, init_word().push(' '))
    ||| l == seq!['i', 'n', 'i', 't', 't', 'o', 'n', 'e']
    ||| l == seq!['i', 'n', 'i', 't', 's', 'c', 'e', 'n', 'e']
    ||| l == seq!['-', '-', '-', '-']
    ||| l == seq!['-', '-', '-']
}

fn lowered_starts_with(t: &str, w: &[char]) -> (r: bool)
    ensures
        r == starts_with(lowered(t@), w@),
{
    let n = t.unicode_len();
    if w.len() > n {
        return false;
    }
    let mut i: usize = 0;
    while i < w.len()
        invariant
            n == t@.len(),
            w@.len() <= n,
            i <= w@.len(),
            forall|j: int| 0 <= j < i ==> ascii_lower(t@[j]) == w@[j],
        decreases w@.len() - i,
    {
        if to_ascii_lower(t.get_char(i)) != w[i] {
            assert(lowered(t@).subrange(0, w@.len() as int)[i as int] != w@[i as int]);
            return false;
        }
        i = i + 1;
    }
    assert(lowered(t@).subrange(0, w@.len() as int) =~= w@);
    true
}

fn lowered_is(t: &str, w: &[char]) -> (r: bool)
    ensures
        r == (lowered(t@) == w@),
{
    if t.unicode_len() != w.len() {
        assert(lowered(t@).len() != w@.len());
        return false;
    }
    let r = lowered_starts_with(t, w);
    assert(lowered(t@).subrange(0, w@.len() as int) =~= lowered(t@));
    r
}

/// Whether a record's name is the factory's placeholder for an unused slot.
///
/// Roland names an empty slot `INITIAL` plus its engine — `INITIAL TONE`, `INITIAL ORGAN`,
/// `INITIAL PIANO`, `INITIAL KIT` — so the prefix is the rule. This only reports what a name is;
/// whether to skip such a record is the caller's decision.
pub fn is_placeholder_name(name: &str) -> (r: bool)
    ensures
        r == is_placeholder(name@),
{
    let t = str_trim(name);
    if t.unicode_len() == 0 {
        return true;
    }
    let initial: [char; 7] = ['i', 'n', 'i', 't', 'i', 'a', 'l'];
    let initial_sp: [char; 8] = ['i', 'n', 'i', 't', 'i', 'a', 'l', ' '];
    let init: [char; 4] = ['i', 'n', 'i', 't'];
    let init_sp: [char; 5] = ['i', 'n', 'i', 't', ' '];
    let inittone: [char; 8] = ['i', 'n', 'i', 't', 't', 'o', 'n', 'e'];
    let initscene: [char; 9] = ['i', 'n', 'i', 't', 's', 'c', 'e', 'n', 'e'];
    let dash4: [char; 4] = ['-', '-', '-', '-'];
    let dash3: [char; 3] = ['-', '-', '-'];
    assert(initial@ =~= initial_word());
    assert(initial_sp@ =~= initial_word().push(' '));
    assert(init@ =~= init_word());
    assert(init_sp@ =~= init_word().push(' '));
    assert(inittone@ =~= seq!['i', 'n', 'i', 't', 't', 'o', 'n', 'e']);
    assert(initscene@ =~= seq!['i', 'n', 'i', 't', 's', 'c', 'e', 'n', 'e']);
    assert(dash4@ =~= seq!['-', '-', '-', '-']);
    assert(dash3@ =~= seq!['-', '-', '-']);
    lowered_is(t, &initial) || lowered_starts_with(t, &initial_sp) || lowered_is(t, &init)
        || lowered_starts_with(t, &init_sp) || lowered_is(t, &inittone) || lowered_is(
        t,
        &initscene,
    ) || lowered_is(t, &dash4) || lowered_is(t, &dash3)
}

/// The index of the first character of `s` at or after `from` outside printable ASCII.
pub open spec fn first_unprintable(s: Seq<char>, from: int) -> Option<int>
    decreases s.len() - from,
{
    if from < 0 || from >= s.len() {
        None
    } else if !(' ' <= s[from] <= '~') {
        Some(from)
    } else {
        first_unprintable(s, from + 1)
    }
}

pub proof fn lemma_first_unprintable(s: Seq<char>, from: int)
    requires
        0 <= from,
    ensures
        first_unprintable(s, from) matches Some(i) ==> from <= i < s.len() && !(' ' <= s[i]
            <= '~'),
        first_unprintable(s, from) is None ==> forall|j: int|
            from <= j < s.len() ==> ' ' <= #[trigger] s[j] <= '~',
    decreases s.len() - from,
{
    if from < s.len() && ' ' <= s[from] <= '~' {
        lemma_first_unprintable(s, from + 1);
    }
}

/// Why `text` cannot go into a fixed ASCII field of `limit` characters, or `None` when it can.
/// Trailing whitespace is how the field pads, so it is dropped first.
pub open spec fn field_error(text: Seq<char>, limit: usize, field: Field) -> Option<Error> {
    let t = trim_end(text);
    match first_unprintable(t, 0) {
        Some(i) => Some(Error::BadCharacter { field, found: t[i] }),
        None => if t.len() > limit {
            Some(Error::TooLong { field, limit, got: t.len() as usize })
        } else {
            None
        },
    }
}

fn check_ascii_field<'a>(text: &'a str, limit: usize, field: Field) -> (r: Result<&'a str>)
    ensures
        field_error(text@, limit, field) matches Some(e) ==> r == Err::<&str, Error>(e),
        field_error(text@, limit, field) is None ==> (r matches Ok(t) && t@ == trim_end(text@)),
        r matches Ok(t) ==> printable_ascii(t@) && t@.len() <= limit,
{
    let t = str_trim_end(text);
    let n = t.unicode_len();
    let mut i: usize = 0;
    while i < n
        invariant
            n == t@.len(),
            t@ == trim_end(text@),
            i <= n,
            first_unprintable(t@, 0) == first_unprintable(t@, i as int),
        decreases n - i,
    {
        let c = t.get_char(i);
        if !(' ' <= c && c <= '~') {
            assert(first_unprintable(t@, i as int) == Some(i as int));
            assert(field_error(text@, limit, field) == Some(Error::BadCharacter { field, found: c }));
            return Err(Error::BadCharacter { field, found: c });
        }
        i = i + 1;
    }
    proof {
        lemma_first_unprintable(t@, 0);
    }
    if n > limit {
        return Err(Error::TooLong { field, limit, got: n });
    }
    Ok(t)
}

/// Check a name against what the instrument's name fields hold — at most 16 characters of
/// printable ASCII — returning it without trailing whitespace.
pub fn check_name(name: &str) -> (r: Result<&str>)
    ensures
        field_error(name@, NAME_LEN, Field::Name) matches Some(e) ==> r == Err::<&str, Error>(e),
        field_error(name@, NAME_LEN, Field::Name) is None ==> (r matches Ok(t) && t@ == trim_end(
            name@,
        )),
        r matches Ok(t) ==> printable_ascii(t@) && t@.len() <= NAME_LEN,
{
    check_ascii_field(name, NAME_LEN, Field::Name)
}

/// The same check for a scene's 64-character comment.
pub fn check_comment(comment: &str) -> (r: Result<&str>)
    ensures
        field_error(comment@, COMMENT_LEN, Field::Comment) matches Some(e) ==> r == Err::<
            &str,
            Error,
        >(e),
        field_error(comment@, COMMENT_LEN, Field::Comment) is None ==> (r matches Ok(t) && t@
            == trim_end(comment@)),
        r matches Ok(t) ==> printable_ascii(t@) && t@.len() <= COMMENT_LEN,
{
    check_ascii_field(comment, COMMENT_LEN, Field::Comment)
}

/// Whether the 16-byte name field at `pos` holds anything but padding.
pub open spec fn has_name(area: Seq<u8>, pos: int) -> bool {
    trimmed_len(area.subrange(pos, pos + NAME_LEN)) > 0
}

/// The offsets, within a performance area body, of its scene records: from `pos` on, every
/// `size` bytes while a whole name field fits, keeping the named slots (empty-named slots pad
/// the bank to a fixed capacity), and at most `left` of them.
pub open spec fn scene_positions(area: Seq<u8>, left: int, size: int, pos: int) -> Seq<int>
    decreases area.len() - pos,
{
    if size <= 0 || left <= 0 || pos < 0 || pos + NAME_LEN > area.len() {
        Seq::empty()
    } else {
        let rest_left = if has_name(area, pos) {
            left - 1
        } else {
            left
        };
        let rest = if pos + size <= area.len() {
            scene_positions(area, rest_left, size, pos + size)
        } else {
            Seq::empty()
        };
        if has_name(area, pos) {
            seq![pos] + rest
        } else {
            rest
        }
    }
}

pub proof fn lemma_scene_positions(area: Seq<u8>, left: int, size: int, pos: int)
    ensures
        forall|k: int|
            0 <= k < scene_positions(area, left, size, pos).len() ==> pos <= #[trigger] scene_positions(
                area,
                left,
                size,
                pos,
            )[k] && scene_positions(area, left, size, pos)[k] + NAME_LEN <= area.len(),
    decreases area.len() - pos,
{
    if size <= 0 || left <= 0 || pos < 0 || pos + NAME_LEN > area.len() {
    } else {
        let rest_left = if has_name(area, pos) {
            left - 1
        } else {
            left
        };
        let rest = if pos + size <= area.len() {
            scene_positions(area, rest_left, size, pos + size)
        } else {
            Seq::empty()
        };
        if pos + size <= area.len() {
            lemma_scene_positions(area, rest_left, size, pos + size);
        }
        let all = scene_positions(area, left, size, pos);
        if has_name(area, pos) {
            assert(all == seq![pos] + rest);
            assert forall|k: int| 0 <= k < all.len() implies pos <= #[trigger] all[k] && all[k]
                + NAME_LEN <= area.len() by {
                if k > 0 {
                    assert(all[k] == rest[k - 1]);
                }
            }
        } else {
            assert(all == rest);
        }
    }
}

/// Where a scene record read from `pos` ends: one record on, or the end of the area.
pub open spec fn record_end(len: int, pos: int, size: int) -> int {
    if pos + size <= len {
        pos + size
    } else {
        len
    }
}

/// The scene offsets of a performance area body, as its header declares them.
pub open spec fn scenes_in(area: Seq<u8>) -> Seq<int> {
    scene_positions(area, le32(area, 0) as int, le32(area, 4) as int, AREA_HEADER_LEN as int)
}

fn has_text(bytes: &[u8]) -> (r: bool)
    ensures
        r == (trimmed_len(bytes@) > 0),
{
    let mut n = bytes.len();
    assert(bytes@.subrange(0, n as int) =~= bytes@);
    while n > 0 && (bytes[n - 1] == 0x20 || bytes[n - 1] == 0)
        invariant
            n <= bytes@.len(),
            trimmed_len(bytes@.subrange(0, n as int)) == trimmed_len(bytes@),
        decreases n,
    {
        assert(bytes@.subrange(0, n as int).drop_last() =~= bytes@.subrange(0, n - 1));
        n = n - 1;
    }
    proof {
        if n > 0 {
            assert(bytes@.subrange(0, n as int).last() == bytes@[n - 1]);
            assert(trimmed_len(bytes@.subrange(0, n as int)) == n);
        } else {
            assert(bytes@.subrange(0, 0) =~= Seq::<u8>::empty());
        }
    }
    n > 0
}

/// Each scene record of a performance area body with its area-relative offset, in file order:
/// the single source of truth for which records are scenes and where, so reading and editing
/// can never disagree.
fn scene_records<'a>(area: &'a [u8], declared: usize, record_size: usize) -> (out: Vec<
    (usize, &'a [u8]),
>)
    ensures
        out@.len() == scene_positions(
            area@,
            declared as int,
            record_size as int,
            AREA_HEADER_LEN as int,
        ).len(),
        forall|k: int|
            0 <= k < out@.len() ==> {
                let p = scene_positions(
                    area@,
                    declared as int,
                    record_size as int,
                    AREA_HEADER_LEN as int,
                )[k];
                &&& #[trigger] out@[k].0 == p
                &&& out@[k].1@ == area@.subrange(
                    p,
                    record_end(area@.len() as int, p, record_size as int),
                )
                &&& AREA_HEADER_LEN <= p
                &&& p + NAME_LEN <= area@.len()
            },
{
    let mut out: Vec<(usize, &'a [u8])> = Vec::new();
    let ghost all = scene_positions(
        area@,
        declared as int,
        record_size as int,
        AREA_HEADER_LEN as int,
    );
    proof {
        lemma_scene_positions(area@, declared as int, record_size as int, AREA_HEADER_LEN as int);
    }
    if record_size == 0 {
        return out;
    }
    let total = area.len();
    let mut pos: usize = AREA_HEADER_LEN;
    while pos <= total && total - pos >= NAME_LEN && out.len() < declared
        invariant
            total == area@.len(),
            record_size > 0,
            out@.len() <= declared,
            all == scene_positions(
                area@,
                declared as int,
                record_size as int,
                AREA_HEADER_LEN as int,
            ),
            all == Seq::new(out@.len() as nat, |k: int| out@[k].0 as int) + scene_positions(
                area@,
                declared - out@.len(),
                record_size as int,
                pos as int,
            ),
            forall|k: int|
                0 <= k < out@.len() ==> (#[trigger] out@[k]).1@ == area@.subrange(
                    out@[k].0 as int,
                    record_end(total as int, out@[k].0 as int, record_size as int),
                ),
        decreases total - pos,
    {
        let ghost before = out@;
        let ghost left = declared - out@.len();
        let named = has_text(vstd::slice::slice_subrange(area, pos, pos + NAME_LEN));
        if named {
            let end = if record_size <= total - pos {
                pos + record_size
            } else {
                total
            };
            out.push((pos, vstd::slice::slice_subrange(area, pos, end)));
        }
        let ghost rest_left = if named {
            left - 1
        } else {
            left
        };
        if record_size <= total - pos {
            pos = pos + record_size;
        } else {
            pos = total;
        }
        proof {
            let old_prefix = Seq::new(before.len() as nat, |k: int| before[k].0 as int);
            let new_prefix = Seq::new(out@.len() as nat, |k: int| out@[k].0 as int);
            if named {
                assert(new_prefix =~= old_prefix.push(out@[out@.len() - 1].0 as int));
            } else {
                assert(new_prefix =~= old_prefix);
            }
            assert(all =~= new_prefix + scene_positions(
                area@,
                declared - out@.len(),
                record_size as int,
                pos as int,
            ));
        }
    }
    proof {
        let prefix = Seq::new(out@.len() as nat, |k: int| out@[k].0 as int);
        assert(all =~= prefix);
        assert forall|k: int| 0 <= k < out@.len() implies #[trigger] out@[k].0 == all[k] by {
            assert(prefix[k] == out@[k].0 as int);
        }
    }
    out
}

/// The tag of the performance area, which holds the scenes.
pub open spec fn prfa() -> Seq<u8> {
    tag4('P', 'R', 'F', 'a')
}

pub open spec fn prfa_tag() -> [u8; 4] {
    [0x50u8, 0x52, 0x46, 0x61]
}

pub(crate) fn prfa_tag_value() -> (t: [u8; 4])
    ensures
        t == prfa_tag(),
        t@ == prfa(),
{
    let t = [0x50u8, 0x52, 0x46, 0x61];
    assert(t@ =~= prfa());
    assert(t =~= prfa_tag());
    t
}

/// Where the performance area of file `s` starts, with its bytes, or why it cannot be read.
#[verifier::opaque]
pub open spec fn scene_area(s: Seq<u8>) -> Result<(int, Seq<u8>)> {
    match first_entry(s, prfa(), area_count(s) as int) {
        None => Err(Error::MissingArea { tag: prfa_tag() }),
        Some(i) => {
            let start = le32(s, PREAMBLE_LEN + 16 * i + 8) as int;
            let end = start + le32(s, PREAMBLE_LEN + 16 * i + 12);
            if end > s.len() {
                Err(
                    Error::AreaBeyondFile {
                        tag: prfa_tag(),
                        start: start as usize,
                        end: end as usize,
                        file_len: s.len() as usize,
                    },
                )
            } else if end - start < 4 {
                Err(Error::AreaTruncated { tag: prfa_tag(), at: 0 })
            } else if end - start < 8 {
                Err(Error::AreaTruncated { tag: prfa_tag(), at: 4 })
            } else {
                Ok((start, s.subrange(start, end)))
            }
        },
    }
}

/// The absolute offset of scene `n` (1-based) in file `s`, or why there is none.
#[verifier::opaque]
pub open spec fn scene_offset(s: Seq<u8>, n: int) -> Result<int> {
    match scene_area(s) {
        Err(e) => Err(e),
        Ok((start, body)) => {
            let p = scenes_in(body);
            if 1 <= n <= p.len() {
                Ok(start + p[n - 1])
            } else {
                Err(Error::SceneOutOfRange { scene: n as usize, count: p.len() as usize })
            }
        },
    }
}

/// The performance area of a parsed file, with its bytes.
fn scene_area_of<'a>(raw: &'a Raw, svd: &Svd) -> (r: Result<(usize, &'a [u8])>)
    requires
        parses_as(*svd, raw@),
    ensures
        match scene_area(raw@) {
            Ok((start, body)) => r matches Ok((at, b)) && at == start && b@ == body,
            Err(e) => r == Err::<(usize, &[u8]), Error>(e),
        },
        r matches Ok((at, b)) ==> at + b@.len() <= raw@.len() && b@.len() >= 8,
{
    reveal(scene_area);
    proof {
        lemma_first_entry(*svd, raw@, prfa(), svd.areas@.len() as int);
        assert(svd.areas@.subrange(0, svd.areas@.len() as int) =~= svd.areas@);
        lemma_first_area(svd.areas@, prfa());
    }
    let tag = prfa_tag_value();
    let area = match svd.area(&tag) {
        Some(a) => a,
        None => {
            return Err(Error::MissingArea { tag });
        },
    };
    proof {
        let i = first_area(svd.areas@, prfa()).unwrap();
        assert(is_entry(svd.areas@[i], raw@, PREAMBLE_LEN + 16 * i));
        assert(area.tag =~= prfa_tag());
    }
    let body = svd.area_bytes(raw, area)?;
    if body.len() < 4 {
        return Err(Error::AreaTruncated { tag, at: 0 });
    }
    if body.len() < 8 {
        return Err(Error::AreaTruncated { tag, at: 4 });
    }
    Ok((area.offset as usize, body))
}

/// The absolute offset of scene `scene_number` (1-based).
fn scene_record_offset(raw: &Raw, scene_number: usize) -> (r: Result<usize>)
    ensures
        envelope_error(raw@) is Some ==> r is Err,
        envelope_error(raw@) is None ==> match scene_offset(raw@, scene_number as int) {
            Ok(at) => r == Ok::<usize, Error>(at as usize) && 0 <= at && at + NAME_LEN <= raw@.len(),
            Err(e) => r == Err::<usize, Error>(e),
        },
        r matches Ok(at) ==> at + NAME_LEN <= raw@.len() <= usize::MAX,
{
    reveal(scene_offset);
    let total = raw.len();
    let svd = Svd::parse(raw)?;
    let (start, body) = scene_area_of(raw, &svd)?;
    let declared = read_u32(body, 0).unwrap() as usize;
    let record_size = read_u32(body, 4).unwrap() as usize;
    let records = scene_records(body, declared, record_size);
    if scene_number == 0 || scene_number > records.len() {
        return Err(Error::SceneOutOfRange { scene: scene_number, count: records.len() });
    }
    let pos = records[scene_number - 1].0;
    assert(records@[scene_number - 1].0 + NAME_LEN <= body@.len());
    Ok(start + pos)
}

/// `s` with `len` bytes at `at` replaced by `text`, space-padded or cut to fit.
pub open spec fn write_field(s: Seq<u8>, at: int, len: int, text: Seq<u8>) -> Seq<u8> {
    s.subrange(0, at) + Seq::new(
        len as nat,
        |i: int|
            if i < text.len() {
                text[i]
            } else {
                0x20u8
            },
    ) + s.subrange(at + len, s.len() as int)
}

/// The bytes of a string of ASCII characters.
pub open spec fn ascii_bytes(t: Seq<char>) -> Seq<u8> {
    Seq::new(t.len(), |i: int| t[i] as u8)
}

proof fn lemma_checked_bytes(t: &str)
    requires
        printable_ascii(t@),
    ensures
        t.spec_bytes() == ascii_bytes(t@),
{
    assert(vstd::string::is_ascii(t));
    vstd::string::is_ascii_spec_bytes(t);
    assert(t.spec_bytes() =~= ascii_bytes(t@));
}

/// Rename scene `scene_number` (1-based) in place: its 16-byte name field is overwritten and
/// space-padded, and no other byte changes. A name the field cannot hold is refused.
pub fn set_scene_name(raw: &mut Raw, scene_number: usize, name: &str) -> (r: Result<()>)
    ensures
        r is Err ==> final(raw)@ == old(raw)@,
        field_error(name@, NAME_LEN, Field::Name) matches Some(e) ==> r == Err::<(), Error>(e),
        field_error(name@, NAME_LEN, Field::Name) is None && envelope_error(old(raw)@) is Some
            ==> r is Err,
        field_error(name@, NAME_LEN, Field::Name) is None && envelope_error(old(raw)@) is None
            ==> match scene_offset(old(raw)@, scene_number as int) {
            Ok(at) => r is Ok && final(raw)@ == write_field(
                old(raw)@,
                at,
                NAME_LEN as int,
                ascii_bytes(trim_end(name@)),
            ),
            Err(e) => r == Err::<(), Error>(e),
        },
{
    let checked = check_name(name)?;
    let at = scene_record_offset(raw, scene_number)?;
    proof {
        lemma_checked_bytes(checked);
        reveal(scene_offset);
    }
    raw.patch_ascii(at, NAME_LEN, checked);
    assert(raw@ =~= write_field(
        old(raw)@,
        at as int,
        NAME_LEN as int,
        ascii_bytes(trim_end(name@)),
    ));
    Ok(())
}

/// Set scene `scene_number`'s (1-based) 64-byte comment in place; no other byte changes. A comment
/// the field cannot hold is refused, and so is a scene whose comment field would run past the end
/// of the file.
pub fn set_scene_comment(raw: &mut Raw, scene_number: usize, comment: &str) -> (r: Result<()>)
    ensures
        r is Err ==> final(raw)@ == old(raw)@,
        field_error(comment@, COMMENT_LEN, Field::Comment) matches Some(e) ==> r == Err::<
            (),
            Error,
        >(e),
        field_error(comment@, COMMENT_LEN, Field::Comment) is None && envelope_error(old(raw)@)
            is Some ==> r is Err,
        field_error(comment@, COMMENT_LEN, Field::Comment) is None && envelope_error(old(raw)@)
            is None ==> match scene_offset(old(raw)@, scene_number as int) {
            Ok(at) => if at + COMMENT_OFFSET + COMMENT_LEN <= old(raw)@.len() {
                r is Ok && final(raw)@ == write_field(
                    old(raw)@,
                    at + COMMENT_OFFSET,
                    COMMENT_LEN as int,
                    ascii_bytes(trim_end(comment@)),
                )
            } else {
                r == Err::<(), Error>(
                    Error::ShortRecord {
                        needed: (COMMENT_OFFSET + COMMENT_LEN) as usize,
                        got: (old(raw)@.len() - at) as usize,
                    },
                )
            },
            Err(e) => r == Err::<(), Error>(e),
        },
{
    let checked = check_comment(comment)?;
    let at = scene_record_offset(raw, scene_number)?;
    proof {
        reveal(scene_offset);
    }
    let total = raw.len();
    if total - at < COMMENT_OFFSET + COMMENT_LEN {
        return Err(Error::ShortRecord { needed: COMMENT_OFFSET + COMMENT_LEN, got: total - at });
    }
    proof {
        lemma_checked_bytes(checked);
    }
    raw.patch_ascii(at + COMMENT_OFFSET, COMMENT_LEN, checked);
    assert(raw@ =~= write_field(
        old(raw)@,
        at + COMMENT_OFFSET,
        COMMENT_LEN as int,
        ascii_bytes(trim_end(comment@)),
    ));
    Ok(())
}

/// The raw bytes of each scene record, in the same order and numbering as [`read_scenes`], so a
/// caller can identify a scene by its stored bytes rather than by the decoded subset.
pub fn read_scene_records(raw: &Raw) -> (r: Result<Vec<&[u8]>>)
    ensures
        envelope_error(raw@) is Some ==> r is Err,
        envelope_error(raw@) is None ==> match scene_area(raw@) {
            Err(e) => r == Err::<Vec<&[u8]>, Error>(e),
            Ok((start, body)) => if le32(body, 4) == 0 {
                r == Err::<Vec<&[u8]>, Error>(Error::ZeroRecordSize { tag: prfa_tag() })
            } else {
                r matches Ok(v) && v@.len() == scenes_in(body).len() && forall|k: int|
                    0 <= k < v@.len() ==> (#[trigger] v@[k])@ == body.subrange(
                        scenes_in(body)[k],
                        record_end(body.len() as int, scenes_in(body)[k], le32(body, 4) as int),
                    )
            },
        },
{
    let svd = Svd::parse(raw)?;
    let (_, body) = scene_area_of(raw, &svd)?;
    let declared = read_u32(body, 0).unwrap() as usize;
    let record_size = read_u32(body, 4).unwrap() as usize;
    if record_size == 0 {
        return Err(Error::ZeroRecordSize { tag: prfa_tag_value() });
    }
    let records = scene_records(body, declared, record_size);
    let mut out: Vec<&[u8]> = Vec::new();
    let mut k: usize = 0;
    while k < records.len()
        invariant
            k <= records@.len(),
            out@.len() == k,
            forall|j: int| 0 <= j < k ==> (#[trigger] out@[j]) == records@[j].1,
        decreases records@.len() - k,
    {
        out.push(records[k].1);
        k = k + 1;
    }
    proof {
        assert forall|j: int| 0 <= j < out@.len() implies (#[trigger] out@[j])@ == body@.subrange(
            scenes_in(body@)[j],
            record_end(body@.len() as int, scenes_in(body@)[j], le32(body@, 4) as int),
        ) by {
            assert(records@[j].0 == scenes_in(body@)[j]);
        }
    }
    Ok(out)
}

/// The bytes of the area tagged `tag` in file `s`, when its table lists it and it lies within
/// the file.
pub open spec fn area_body(s: Seq<u8>, tag: Seq<u8>) -> Option<Seq<u8>> {
    match first_entry(s, tag, area_count(s) as int) {
        None => None,
        Some(i) => {
            let start = le32(s, PREAMBLE_LEN + 16 * i + 8) as int;
            let end = start + le32(s, PREAMBLE_LEN + 16 * i + 12);
            if end <= s.len() {
                Some(s.subrange(start, end))
            } else {
                None
            }
        },
    }
}

/// The name of record `j` of a record-table body, read from `off` within the record.
pub open spec fn record_name(body: Seq<u8>, off: int, swapped: bool, j: int) -> Seq<char> {
    let at = data_start(body) + j * le32(body, 4) + off;
    field_text(name_field(body.subrange(at, at + NAME_LEN), swapped))
}

/// The name of every record in the area tagged `tag` of file `s`, in storage order; empty when
/// the area is missing, is not a record table, or its records are too short to hold a name at
/// `off`.
pub open spec fn area_names(s: Seq<u8>, tag: Seq<u8>, off: int, swapped: bool) -> Seq<Seq<char>> {
    match area_body(s, tag) {
        Some(body) => if body.len() >= 8 && le32(body, 4) >= off + NAME_LEN {
            Seq::new(whole_records(body), |j: int| record_name(body, off, swapped, j))
        } else {
            Seq::empty()
        },
        None => Seq::empty(),
    }
}

/// Where the name sits in a record of table row `i`.
pub open spec fn row_name_offset(i: int) -> int {
    if i == 6 {
        0x1c44
    } else if i == 8 {
        0x10
    } else {
        0
    }
}

/// The bundled record names of table row `i`'s area.
pub open spec fn row_names(s: Seq<u8>, i: int) -> Seq<Seq<char>> {
    area_names(s, row_tag(i), row_name_offset(i), i == 6)
}

fn record_names(raw: &Raw, svd: &Svd, spec: &AreaSpec) -> (names: Vec<String>)
    requires
        parses_as(*svd, raw@),
    ensures
        names@.len() == area_names(raw@, spec.tag@, spec.name_offset as int, spec.word_swapped).len(),
        forall|k: int|
            0 <= k < names@.len() ==> (#[trigger] names@[k])@ == area_names(
                raw@,
                spec.tag@,
                spec.name_offset as int,
                spec.word_swapped,
            )[k],
{
    let ghost names_spec = area_names(raw@, spec.tag@, spec.name_offset as int, spec.word_swapped);
    proof {
        lemma_first_entry(*svd, raw@, spec.tag@, svd.areas@.len() as int);
        assert(svd.areas@.subrange(0, svd.areas@.len() as int) =~= svd.areas@);
        lemma_first_area(svd.areas@, spec.tag@);
        if let Some(i) = first_area(svd.areas@, spec.tag@) {
            assert(is_entry(svd.areas@[i], raw@, PREAMBLE_LEN + 16 * i));
        }
    }
    let table = match RecordTable::from_svd(raw, svd, &spec.tag) {
        Ok(Some(t)) => t,
        _ => {
            return Vec::new();
        },
    };
    if table.record_size < NAME_LEN || table.record_size - NAME_LEN < spec.name_offset {
        return Vec::new();
    }
    let ghost body = table.body();
    let n = table.len();
    let mut out: Vec<String> = Vec::new();
    let mut j: usize = 0;
    while j < n
        invariant
            table.wf(),
            body == table.body(),
            n == table.spec_len(),
            names_spec.len() == n,
            table.record_size >= spec.name_offset + NAME_LEN,
            forall|k: int| 0 <= k < n ==> names_spec[k] == record_name(
                body,
                spec.name_offset as int,
                spec.word_swapped,
                k,
            ),
            j <= n,
            out@.len() == j,
            forall|k: int| 0 <= k < j ==> (#[trigger] out@[k])@ == names_spec[k],
        decreases n - j,
    {
        let rec = table.record(j).unwrap();
        let field = vstd::slice::slice_subrange(rec, spec.name_offset, spec.name_offset + NAME_LEN);
        proof {
            let rs = table.record_size as int;
            let at = data_start(body) + j * le32(body, 4) + spec.name_offset;
            assert((j + 1) * rs == j * rs + rs) by (nonlinear_arith);
            assert(rec@ == body.subrange(table.info_len + j * rs, table.info_len + (j + 1) * rs));
            assert(field@ =~= body.subrange(at, at + NAME_LEN));
        }
        out.push(spec.decode_name(field));
        j = j + 1;
    }
    out
}

/// The bundled user tones of the first `n` rows of the bank table, as (row, index, name) in
/// table order and then storage order.
pub open spec fn bundled(s: Seq<u8>, n: int) -> Seq<(int, int, Seq<char>)>
    decreases n,
{
    if n <= 0 {
        Seq::empty()
    } else {
        let names = row_names(s, n - 1);
        bundled(s, n - 1) + Seq::new(names.len(), |j: int| (n - 1, j, names[j]))
    }
}

/// One named user-tone record physically bundled in an SVD area.
#[derive(Debug, Clone, PartialEq, Eq)]
pub struct BundledTone {
    /// Four-byte SVD area tag containing the record.
    pub area: [u8; 4],
    /// Sound engine that owns the record.
    pub tone_type: ToneType,
    /// Zero-based record index within the area.
    pub index: usize,
    /// Decoded 16-byte tone name.
    pub name: String,
}

/// Whether `b` is the bundled tone `t` = (row, index, name).
pub open spec fn is_bundled(b: BundledTone, t: (int, int, Seq<char>)) -> bool {
    &&& b.area@ == row_tag(t.0)
    &&& b.tone_type == row_type(t.0)
    &&& b.index == t.1
    &&& b.name@ == t.2
}

fn bundled_tones_from_svd(raw: &Raw, svd: &Svd) -> (out: Vec<BundledTone>)
    requires
        parses_as(*svd, raw@),
    ensures
        out@.len() == bundled(raw@, AREA_COUNT as int).len(),
        forall|k: int|
            0 <= k < out@.len() ==> is_bundled(
                #[trigger] out@[k],
                bundled(raw@, AREA_COUNT as int)[k],
            ),
{
    let mut out: Vec<BundledTone> = Vec::new();
    let mut i: usize = 0;
    while i < AREA_COUNT
        invariant
            parses_as(*svd, raw@),
            i <= AREA_COUNT,
            out@.len() == bundled(raw@, i as int).len(),
            forall|k: int|
                0 <= k < out@.len() ==> is_bundled(#[trigger] out@[k], bundled(raw@, i as int)[k]),
        decreases AREA_COUNT - i,
    {
        let a = area_at(i);
        let names = record_names(raw, svd, &a);
        let ghost before = out@;
        let ghost prev = bundled(raw@, i as int);
        let ghost row = row_names(raw@, i as int);
        let mut j: usize = 0;
        while j < names.len()
            invariant
                is_row(a, i as int),
                names@.len() == row.len(),
                forall|k: int| 0 <= k < names@.len() ==> (#[trigger] names@[k])@ == row[k],
                prev.len() == before.len(),
                j <= names@.len(),
                out@.len() == before.len() + j,
                forall|k: int| 0 <= k < before.len() ==> out@[k] == before[k],
                forall|k: int| 0 <= k < before.len() ==> is_bundled(#[trigger] before[k], prev[k]),
                forall|k: int|
                    0 <= k < j ==> is_bundled(
                        #[trigger] out@[before.len() + k],
                        (i as int, k, row[k]),
                    ),
            decreases names@.len() - j,
        {
            out.push(BundledTone { area: a.tag, tone_type: a.tone_type, index: j, name: names[j].clone() });
            j = j + 1;
        }
        proof {
            let next = bundled(raw@, i + 1);
            assert(next == prev + Seq::new(row.len(), |k: int| (i as int, k, row[k])));
            assert forall|k: int| 0 <= k < out@.len() implies is_bundled(#[trigger] out@[k], next[k]) by {
                if k < before.len() {
                    assert(out@[k] == before[k]);
                } else {
                    assert(is_bundled(out@[before.len() + (k - before.len())], (i as int, k - before.len(), row[k - before.len()])));
                }
            }
        }
        i = i + 1;
    }
    out
}

/// Decode every named user-tone record bundled in an SVD, in bank-table order and then storage
/// order within each area.
pub fn read_bundled_tones(raw: &Raw) -> (r: Result<Vec<BundledTone>>)
    ensures
        envelope_error(raw@) is Some ==> r is Err,
        envelope_error(raw@) is None ==> (r matches Ok(v) && v@.len() == bundled(
            raw@,
            AREA_COUNT as int,
        ).len() && forall|k: int|
            0 <= k < v@.len() ==> is_bundled(#[trigger] v@[k], bundled(raw@, AREA_COUNT as int)[k])),
{
    let svd = Svd::parse(raw)?;
    Ok(bundled_tones_from_svd(raw, &svd))
}

pub proof fn lemma_row_tags_distinct(i: int, j: int)
    requires
        0 <= i < AREA_COUNT,
        0 <= j < AREA_COUNT,
        row_tag(i) == row_tag(j),
    ensures
        i == j,
{
    assert(row_tag(i)[0] == row_tag(j)[0]);
    assert(row_tag(i)[1] == row_tag(j)[1]);
}

/// The first entry at or after `from` whose tag is `tag`.
pub open spec fn first_tagged(entries: Seq<([u8; 4], Vec<String>)>, tag: Seq<u8>, from: int) -> Option<int>
    decreases entries.len() - from,
{
    if from < 0 || from >= entries.len() {
        None
    } else if entries[from].0@ == tag {
        Some(from)
    } else {
        first_tagged(entries, tag, from + 1)
    }
}

pub proof fn lemma_first_tagged(entries: Seq<([u8; 4], Vec<String>)>, tag: Seq<u8>, from: int)
    requires
        0 <= from,
    ensures
        first_tagged(entries, tag, from) matches Some(k) ==> from <= k < entries.len()
            && entries[k].0@ == tag && forall|j: int| from <= j < k ==> entries[j].0@ != tag,
        first_tagged(entries, tag, from) is None ==> forall|j: int|
            from <= j < entries.len() ==> entries[j].0@ != tag,
    decreases entries.len() - from,
{
    if from < entries.len() && entries[from].0@ != tag {
        lemma_first_tagged(entries, tag, from + 1);
    }
}

/// The name a file gives the user tone at `(msb, lsb, pc)`, when it bundles that record.
pub open spec fn user_tone_name(s: Seq<u8>, msb: u8, lsb: u8, pc: u8) -> Option<Seq<char>> {
    match bank_row(msb, lsb) {
        None => None,
        Some(i) => {
            let idx = record_index(msb, lsb, pc);
            let names = row_names(s, i);
            if 0 <= idx < names.len() {
                Some(names[idx])
            } else {
                None
            }
        },
    }
}

/// The bundled user-tone names of one file, one list per area tag.
///
/// Every user reference indexes its engine's area directly (see [`crate::address`]), so one list
/// of names per area answers them all.
pub struct ToneResolver {
    pub names: Vec<([u8; 4], Vec<String>)>,
}

impl ToneResolver {
    /// The name this resolver gives the record an address points at.
    pub open spec fn spec_name(&self, msb: u8, lsb: u8, pc: u8) -> Option<Seq<char>> {
        match bank_row(msb, lsb) {
            None => None,
            Some(i) => match first_tagged(self.names@, row_tag(i), 0) {
                None => None,
                Some(k) => {
                    let v = self.names@[k].1@;
                    let idx = record_index(msb, lsb, pc);
                    if 0 <= idx < v.len() {
                        Some(v[idx]@)
                    } else {
                        None
                    }
                },
            },
        }
    }

    /// The resolver holds exactly the bundled names of file `s`, one entry per table row.
    pub open spec fn holds(&self, s: Seq<u8>) -> bool {
        &&& self.names@.len() == AREA_COUNT
        &&& forall|i: int|
            0 <= i < AREA_COUNT ==> {
                &&& (#[trigger] self.names@[i]).0@ == row_tag(i)
                &&& self.names@[i].1@.len() == row_names(s, i).len()
                &&& forall|k: int|
                    0 <= k < self.names@[i].1@.len() ==> (#[trigger] self.names@[i].1@[k])@
                        == row_names(s, i)[k]
            }
    }

    proof fn lemma_holds(&self, s: Seq<u8>, msb: u8, lsb: u8, pc: u8)
        requires
            self.holds(s),
        ensures
            self.spec_name(msb, lsb, pc) == user_tone_name(s, msb, lsb, pc),
    {
        lemma_first_row(msb, lsb, 0);
        if let Some(i) = bank_row(msb, lsb) {
            lemma_first_tagged(self.names@, row_tag(i), 0);
            assert(self.names@[i].0@ == row_tag(i));
            if let Some(k) = first_tagged(self.names@, row_tag(i), 0) {
                assert(self.names@[k].0@ == row_tag(k));
                lemma_row_tags_distinct(k, i);
            }
        }
    }

    fn new(raw: &Raw, svd: &Svd) -> (r: Self)
        requires
            parses_as(*svd, raw@),
        ensures
            r.holds(raw@),
    {
        let mut names: Vec<([u8; 4], Vec<String>)> = Vec::new();
        let mut i: usize = 0;
        while i < AREA_COUNT
            invariant
                parses_as(*svd, raw@),
                i <= AREA_COUNT,
                names@.len() == i,
                forall|j: int|
                    0 <= j < i ==> {
                        &&& (#[trigger] names@[j]).0@ == row_tag(j)
                        &&& names@[j].1@.len() == row_names(raw@, j).len()
                        &&& forall|k: int|
                            0 <= k < names@[j].1@.len() ==> (#[trigger] names@[j].1@[k])@
                                == row_names(raw@, j)[k]
                    },
            decreases AREA_COUNT - i,
        {
            let a = area_at(i);
            let v = record_names(raw, svd, &a);
            names.push((a.tag, v));
            i = i + 1;
        }
        ToneResolver { names }
    }

    /// The name of the record a tone address points at, if the resolver carries it.
    pub fn name(&self, msb: u8, lsb: u8, pc: u8) -> (r: Option<&str>)
        ensures
            r is Some <==> self.spec_name(msb, lsb, pc) is Some,
            r matches Some(n) ==> self.spec_name(msb, lsb, pc) == Some(n@),
    {
        proof {
            lemma_first_row(msb, lsb, 0);
        }
        let (a, index) = match resolve(msb, lsb, pc) {
            Some(found) => found,
            None => {
                return None;
            },
        };
        let ghost i = bank_row(msb, lsb).unwrap();
        let mut k: usize = 0;
        while k < self.names.len()
            invariant
                is_row(a, i),
                bank_row(msb, lsb) == Some(i),
                index == record_index(msb, lsb, pc),
                k <= self.names@.len(),
                first_tagged(self.names@, row_tag(i), 0) == first_tagged(
                    self.names@,
                    row_tag(i),
                    k as int,
                ),
            decreases self.names@.len() - k,
        {
            if same_tag(&self.names[k].0, &a.tag) {
                assert(first_tagged(self.names@, row_tag(i), k as int) == Some(k as int));
                let v = &self.names[k].1;
                if index < v.len() {
                    return Some(v[index].as_str());
                }
                return None;
            }
            k = k + 1;
        }
        None
    }
}

/// Name a zone's tone address, given as MSB and the stored big-endian LSB/PC pair: a bundled
/// user record when the file holds one. Addresses that cannot be placed keep their raw MSB/LSB/PC
/// and no name — showing the wrong name would be worse than showing none.
pub fn resolve_tone(msb: u8, id: u16, resolver: Option<&ToneResolver>) -> (t: ToneRef)
    ensures
        t.address.msb == msb,
        t.address.lsb == id / 256,
        t.address.pc == id % 256,
        match resolver {
            Some(r) => match r.spec_name(msb, (id / 256) as u8, (id % 256) as u8) {
                Some(n) => t.name matches Some(x) && x@ == n,
                None => t.name is None,
            },
            None => t.name is None,
        },
{
    let lsb = (id / 256) as u8;
    let pc = (id % 256) as u8;
    let name = match resolver {
        Some(r) => match r.name(msb, lsb, pc) {
            Some(n) => Some(n.to_string()),
            None => None,
        },
        None => None,
    };
    ToneRef::new(msb, lsb, pc, name)
}

/// Record offset of zone slot `n`'s entry in the zone table (switch and key range).
pub open spec fn zone_entry_at(n: int) -> int {
    0x6d0 + n * 0x60
}

/// Record offset of zone slot `n`'s entry in the settings table (tone address and level).
pub open spec fn settings_at(n: int) -> int {
    0x194 + n * 0x48
}

/// Whether zone slot `n` of a scene record holds a real zone: the record reaches past its zone
/// entry and that entry carries the `cf cd` alignment marker. An uninitialized, corrupt or
/// unrecognised slot is not a zone.
pub open spec fn zone_present(r: Seq<u8>, n: int) -> bool {
    &&& zone_entry_at(n) + 0x60 <= r.len()
    &&& settings_at(n) + 0x48 <= r.len()
    &&& r.subrange(zone_entry_at(n) + 0x3e, zone_entry_at(n) + 0x40) == zone_marker()
}

/// The slots among the first `n` of a scene record that hold real zones, in order.
pub open spec fn present_zones(r: Seq<u8>, n: int) -> Seq<int>
    decreases n,
{
    if n <= 0 {
        Seq::empty()
    } else if zone_present(r, n - 1) {
        present_zones(r, n - 1).push(n - 1)
    } else {
        present_zones(r, n - 1)
    }
}

/// Whether `t` names its tone as `name` says: with that name, or with none.
pub open spec fn named_as(t: ToneRef, name: Option<Seq<char>>) -> bool {
    match name {
        Some(n) => t.name matches Some(x) && x@ == n,
        None => t.name is None,
    }
}

/// Whether `z` is zone slot `n` of scene record `r`, its tone named `name`. The switch and key
/// range come from the zone table, the level and tone address from the settings table; the other
/// settings are not decoded from the record and read as zero.
pub open spec fn decodes_zone(z: Zone, r: Seq<u8>, n: int, name: Option<Seq<char>>) -> bool {
    let e = zone_entry_at(n);
    let st = settings_at(n);
    &&& z.number == n
    &&& z.enabled == (r[e + 4] != 0)
    &&& z.key_low == r[e + 8]
    &&& z.key_high == r[e + 9]
    &&& z.level == r[st + 7]
    &&& z.tone.address.msb == r[st]
    &&& z.tone.address.lsb == r[st + 1]
    &&& z.tone.address.pc == r[st + 2]
    &&& named_as(z.tone, name)
    &&& !z.muted
    &&& z.velocity_low == 0
    &&& z.velocity_high == 0
    &&& z.pan == 0
    &&& z.transpose == 0
    &&& z.octave == 0
    &&& z.midi_channel == 0
    &&& !z.arpeggio
}

/// The name `resolver` gives zone slot `n`'s tone, if any.
pub open spec fn resolved_name(resolver: Option<&ToneResolver>, r: Seq<u8>, n: int) -> Option<
    Seq<char>,
> {
    let st = settings_at(n);
    match resolver {
        Some(res) => res.spec_name(r[st], r[st + 1], r[st + 2]),
        None => None,
    }
}

/// Decode the 16 zones of a scene `record`.
///
/// Combines the zone table (`0x6d0`: switch and key range) with the settings table (`0x194`:
/// level and tone address). `resolver` supplies the names of user tones the file bundles; without
/// it, zones still decode and keep their raw addresses. A record too short to hold a zone yields
/// none, and a slot without the `cf cd` marker is skipped rather than failing the whole file.
pub fn read_zones(record: &[u8], resolver: Option<&ToneResolver>) -> (r: Result<Vec<Zone>>)
    ensures
        r matches Ok(zones) && zones@.len() == present_zones(record@, ZONE_COUNT as int).len()
            && forall|k: int|
            0 <= k < zones@.len() ==> decodes_zone(
                #[trigger] zones@[k],
                record@,
                present_zones(record@, ZONE_COUNT as int)[k],
                resolved_name(resolver, record@, present_zones(record@, ZONE_COUNT as int)[k]),
            ),
{
    let mut zones: Vec<Zone> = Vec::new();
    let total = record.len();
    let mut n: usize = 0;
    while n < ZONE_COUNT
        invariant
            total == record@.len(),
            n <= ZONE_COUNT,
            zones@.len() == present_zones(record@, n as int).len(),
            forall|k: int|
                0 <= k < zones@.len() ==> decodes_zone(
                    #[trigger] zones@[k],
                    record@,
                    present_zones(record@, n as int)[k],
                    resolved_name(resolver, record@, present_zones(record@, n as int)[k]),
                ),
        decreases ZONE_COUNT - n,
    {
        let e = 0x6d0 + n * 0x60;
        let st = 0x194 + n * 0x48;
        let ghost before = zones@;
        if total >= e + 0x60 {
            let entry = vstd::slice::slice_subrange(record, e, total);
            assert(entry@.subrange(0x3e, 0x40) =~= record@.subrange(e + 0x3e, e + 0x40));
            match RawZone::read(entry) {
                Ok(z) => {
                    let settings = vstd::slice::slice_subrange(record, st, total);
                    let level = match ZoneSettings::read(settings) {
                        Ok(s) => s.level,
                        Err(_) => 0,
                    };
                    let msb = record[st];
                    let id = (record[st + 1] as u16) * 256 + record[st + 2] as u16;
                    assert(id / 256 == record[st + 1] as int && id % 256 == record[st + 2] as int)
                        by (nonlinear_arith)
                        requires
                            id == record[st + 1] * 256 + record[st + 2],
                            record[st + 2] < 256,
                    ;
                    let tone = resolve_tone(msb, id, resolver);
                    zones.push(
                        Zone {
                            number: n as u8,
                            enabled: z.enable != 0,
                            muted: false,
                            tone,
                            key_low: z.key_low,
                            key_high: z.key_high,
                            velocity_low: 0,
                            velocity_high: 0,
                            level,
                            pan: 0,
                            transpose: 0,
                            octave: 0,
                            midi_channel: 0,
                            arpeggio: false,
                        },
                    );
                },
                Err(_) => {},
            }
        }
        proof {
            let next = present_zones(record@, n + 1);
            assert forall|k: int| 0 <= k < zones@.len() implies decodes_zone(
                #[trigger] zones@[k],
                record@,
                next[k],
                resolved_name(resolver, record@, next[k]),
            ) by {
                if k < before.len() {
                    assert(zones@[k] == before[k]);
                }
            }
        }
        n = n + 1;
    }
    Ok(zones)
}

/// A fixed text field of a record, read when the record reaches past it and empty otherwise.
pub open spec fn text_at(rec: Seq<u8>, at: int, len: int) -> Seq<char> {
    if at + len <= rec.len() {
        field_text(rec.subrange(at, at + len))
    } else {
        Seq::empty()
    }
}

/// Whether `sc` is what scene record `rec` of file `s` decodes to: its name and comment, and its
/// zones with the user tones the file bundles named. Tempo, level and keyboard groups are not
/// decoded from the record.
pub open spec fn decodes_scene(sc: Scene, rec: Seq<u8>, s: Seq<u8>) -> bool {
    let present = present_zones(rec, ZONE_COUNT as int);
    &&& sc.name@ == text_at(rec, 0, NAME_LEN as int)
    &&& sc.comment@ == text_at(rec, COMMENT_OFFSET as int, COMMENT_LEN as int)
    &&& sc.tempo == 0
    &&& sc.level == 0
    &&& sc.groups@.len() == 0
    &&& sc.zones@.len() == present.len()
    &&& forall|k: int|
        0 <= k < present.len() ==> {
            let st = settings_at(present[k]);
            decodes_zone(
                #[trigger] sc.zones@[k],
                rec,
                present[k],
                user_tone_name(s, rec[st], rec[st + 1], rec[st + 2]),
            )
        }
}

fn field_or_empty(rec: &[u8], at: usize, len: usize) -> (t: String)
    requires
        at + len <= usize::MAX,
    ensures
        t@ == text_at(rec@, at as int, len as int),
{
    if rec.len() >= at + len {
        ascii_trim(vstd::slice::slice_subrange(rec, at, at + len))
    } else {
        String::new()
    }
}

/// Decode every scene of an SVD file — name, comment and zones (switch, key range, level and
/// tone, with bundled user-tone names resolved) — in the order and numbering of
/// [`read_scene_records`].
pub fn read_scenes(raw: &Raw) -> (r: Result<Vec<Scene>>)
    ensures
        envelope_error(raw@) is Some ==> r is Err,
        envelope_error(raw@) is None ==> match scene_area(raw@) {
            Err(e) => r == Err::<Vec<Scene>, Error>(e),
            Ok((start, body)) => if le32(body, 4) == 0 {
                r == Err::<Vec<Scene>, Error>(Error::ZeroRecordSize { tag: prfa_tag() })
            } else {
                r matches Ok(v) && v@.len() == scenes_in(body).len() && forall|k: int|
                    0 <= k < v@.len() ==> decodes_scene(
                        #[trigger] v@[k],
                        body.subrange(
                            scenes_in(body)[k],
                            record_end(body.len() as int, scenes_in(body)[k], le32(body, 4) as int),
                        ),
                        raw@,
                    )
            },
        },
{
    let svd = Svd::parse(raw)?;
    let (_, body) = scene_area_of(raw, &svd)?;
    let declared = read_u32(body, 0).unwrap() as usize;
    let record_size = read_u32(body, 4).unwrap() as usize;
    if record_size == 0 {
        return Err(Error::ZeroRecordSize { tag: prfa_tag_value() });
    }
    let records = scene_records(body, declared, record_size);
    let resolver = ToneResolver::new(raw, &svd);
    let mut scenes: Vec<Scene> = Vec::new();
    let mut k: usize = 0;
    while k < records.len()
        invariant
            resolver.holds(raw@),
            k <= records@.len(),
            scenes@.len() == k,
            forall|j: int|
                0 <= j < k ==> decodes_scene(#[trigger] scenes@[j], records@[j].1@, raw@),
        decreases records@.len() - k,
    {
        let record = records[k].1;
        let name = field_or_empty(record, 0, NAME_LEN);
        let comment = field_or_empty(record, COMMENT_OFFSET, COMMENT_LEN);
        let zones = match read_zones(record, Some(&resolver)) {
            Ok(z) => z,
            Err(_) => Vec::new(),
        };
        proof {
            let present = present_zones(record@, ZONE_COUNT as int);
            assert forall|j: int| 0 <= j < present.len() implies resolved_name(
                Some(&resolver),
                record@,
                present[j],
            ) == user_tone_name(
                raw@,
                record@[settings_at(present[j])],
                record@[settings_at(present[j]) + 1],
                record@[settings_at(present[j]) + 2],
            ) by {
                let st = settings_at(present[j]);
                resolver.lemma_holds(raw@, record@[st], record@[st + 1], record@[st + 2]);
            }
        }
        let scene = Scene { name, comment, tempo: 0, level: 0, zones, groups: Vec::new() };
        scenes.push(scene);
        k = k + 1;
    }
    proof {
        assert forall|j: int| 0 <= j < scenes@.len() implies decodes_scene(
            #[trigger] scenes@[j],
            body@.subrange(
                scenes_in(body@)[j],
                record_end(body@.len() as int, scenes_in(body@)[j], le32(body@, 4) as int),
            ),
            raw@,
        ) by {
            assert(records@[j].0 == scenes_in(body@)[j]);
        }
    }
    Ok(scenes)
}

} // verus!
