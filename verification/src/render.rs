//! Turning model values into the text the terminal shows.
//!
//! Anything here is presentation only: it takes typed values and returns strings, never opens a
//! file, and never decides which fields matter.

use vstd::prelude::*;

use crate::bytes::copy_range;
use crate::container::raw::{hex_padded, push_hex_padded};
use crate::container::Raw;
use crate::diff::ByteRun;
use crate::model::{engine_of, bank_label, ToneAddress, ToneRef, ToneType, Zone};
use crate::requirements::{
    bank_label_text, expansions_of, lemma_expansions_len, lemma_uncarried_len, missing_of,
    silent_of, uncarried_of, BankRequirement, Requirements, SlotRequirement, ToneRequirement,
};
use crate::text::{
    debug_str, decimal, push_debug_str, hex2, lossy_text, padded_decimal, push_char, push_decimal, push_hex2,
    push_padded_decimal, push_str, shown, shown_char, str_trim_end, trim_end, utf8_lossy,
};

verus! {

/// Which way a column's cells sit against its width.
#[derive(Debug, Clone, Copy, PartialEq, Eq)]
pub enum Align {
    Left,
    Right,
}

/// A text table that sizes its own columns.
pub struct Table {
    pub columns: Vec<(&'static str, Align)>,
    pub rows: Vec<Vec<String>>,
}

/// `n` spaces.
pub open spec fn spaces(n: int) -> Seq<char> {
    Seq::new(if n < 0 { 0 } else { n as nat }, |_i: int| ' ')
}

/// The text of cell `i` of a row, empty past its end.
pub open spec fn cell(row: Seq<Seq<char>>, i: int) -> Seq<char> {
    if 0 <= i < row.len() {
        row[i]
    } else {
        Seq::empty()
    }
}

/// The widest of the first `n` rows' cell `i`, at least `w`.
pub open spec fn widest(rows: Seq<Seq<Seq<char>>>, i: int, n: int, w: int) -> int
    decreases n,
{
    if n <= 0 {
        w
    } else {
        let rest = widest(rows, i, n - 1, w);
        if 0 <= i < rows[n - 1].len() && rows[n - 1][i].len() > rest {
            rows[n - 1][i].len() as int
        } else {
            rest
        }
    }
}

/// Column `i`'s width: its widest cell, the header included.
pub open spec fn column_width(header: Seq<char>, rows: Seq<Seq<Seq<char>>>, i: int) -> int {
    widest(rows, i, rows.len() as int, header.len() as int)
}

/// A cell padded to `w` characters on the side its alignment leaves open.
pub open spec fn aligned(text: Seq<char>, w: int, align: Align) -> Seq<char> {
    match align {
        Align::Left => text + spaces(w - text.len()),
        Align::Right => spaces(w - text.len()) + text,
    }
}

/// The first `n` cells of a line, two spaces apart.
pub open spec fn line_cells(row: Seq<Seq<char>>, widths: Seq<int>, aligns: Seq<Align>, n: int) -> Seq<
    char,
>
    decreases n,
{
    if n <= 0 {
        Seq::empty()
    } else {
        let rest = line_cells(row, widths, aligns, n - 1);
        let sep = if n - 1 > 0 {
            seq![' ', ' ']
        } else {
            Seq::empty()
        };
        rest + sep + aligned(cell(row, n - 1), widths[n - 1], aligns[n - 1])
    }
}

/// The view of the table: its headers, alignments and rows as character sequences.
pub open spec fn headers(t: Table) -> Seq<Seq<char>> {
    t.columns@.map_values(|c: (&'static str, Align)| c.0@)
}

pub open spec fn aligns(t: Table) -> Seq<Align> {
    t.columns@.map_values(|c: (&'static str, Align)| c.1)
}

pub open spec fn row_texts(t: Table) -> Seq<Seq<Seq<char>>> {
    t.rows@.map_values(|r: Vec<String>| r@.map_values(|c: String| c@))
}

pub open spec fn widths(t: Table) -> Seq<int> {
    Seq::new(t.columns@.len(), |i: int| column_width(headers(t)[i], row_texts(t), i))
}

/// One rendered line: the row's cells aligned to the column widths, without trailing whitespace.
pub open spec fn table_line(t: Table, row: Seq<Seq<char>>) -> Seq<char> {
    trim_end(line_cells(row, widths(t), aligns(t), t.columns@.len() as int)) + seq!['\n']
}

/// The first `n` rows' lines.
pub open spec fn table_lines(t: Table, n: int) -> Seq<char>
    decreases n,
{
    if n <= 0 {
        Seq::empty()
    } else {
        table_lines(t, n - 1) + table_line(t, row_texts(t)[n - 1])
    }
}

/// The whole table: the header line, then one line per row.
pub open spec fn table_text(t: Table) -> Seq<char> {
    table_line(t, headers(t)) + table_lines(t, t.rows@.len() as int)
}

fn push_spaces(s: &mut String, n: usize)
    ensures
        final(s)@ == old(s)@ + spaces(n as int),
{
    let mut i: usize = 0;
    while i < n
        invariant
            i <= n,
            s@ == old(s)@ + spaces(i as int),
        decreases n - i,
    {
        push_char(s, ' ');
        i = i + 1;
        assert(s@ =~= old(s)@ + spaces(i as int));
    }
}

pub(crate) fn push_aligned(s: &mut String, text: &str, w: usize, align: Align)
    ensures
        final(s)@ == old(s)@ + aligned(text@, w as int, align),
{
    let n = text.unicode_len();
    let pad = if w > n {
        w - n
    } else {
        0
    };
    assert(spaces(pad as int) =~= spaces(w - text@.len()));
    match align {
        Align::Left => {
            push_str(s, text);
            push_spaces(s, pad);
        },
        Align::Right => {
            push_spaces(s, pad);
            push_str(s, text);
        },
    }
    assert(s@ =~= old(s)@ + aligned(text@, w as int, align));
}

impl Table {
    pub fn new(columns: Vec<(&'static str, Align)>) -> (t: Self)
        ensures
            t.columns@ == columns@,
            t.rows@.len() == 0,
    {
        Table { columns, rows: Vec::new() }
    }

    /// Add a row. Cells are matched to columns by position; a short row is padded out, and cells
    /// past the last column are not shown.
    pub fn row(&mut self, cells: Vec<String>)
        ensures
            final(self).columns@ == old(self).columns@,
            final(self).rows@ == old(self).rows@.push(cells),
    {
        self.rows.push(cells);
    }

    fn column_width(&self, i: usize) -> (w: usize)
        requires
            i < self.columns@.len(),
        ensures
            w == column_width(headers(*self)[i as int], row_texts(*self), i as int),
    {
        let mut w = self.columns[i].0.unicode_len();
        let mut k: usize = 0;
        while k < self.rows.len()
            invariant
                i < self.columns@.len(),
                k <= self.rows@.len(),
                w == widest(row_texts(*self), i as int, k as int, headers(*self)[i as int].len() as int),
            decreases self.rows@.len() - k,
        {
            if i < self.rows[k].len() {
                let n = self.rows[k][i].as_str().unicode_len();
                if n > w {
                    w = n;
                }
            }
            k = k + 1;
        }
        w
    }

    fn render_line(&self, widths_v: &Vec<usize>, row: &Vec<String>, out: &mut String)
        requires
            widths_v@.len() == self.columns@.len(),
            forall|i: int| 0 <= i < widths_v@.len() ==> widths_v@[i] == widths(*self)[i],
        ensures
            final(out)@ == old(out)@ + table_line(*self, row@.map_values(|c: String| c@)),
    {
        let ghost texts = row@.map_values(|c: String| c@);
        let mut line = String::new();
        let mut i: usize = 0;
        while i < self.columns.len()
            invariant
                widths_v@.len() == self.columns@.len(),
                forall|j: int| 0 <= j < widths_v@.len() ==> widths_v@[j] == widths(*self)[j],
                texts == row@.map_values(|c: String| c@),
                i <= self.columns@.len(),
                line@ == line_cells(texts, widths(*self), aligns(*self), i as int),
            decreases self.columns@.len() - i,
        {
            if i > 0 {
                push_str(&mut line, "  ");
                proof {
                    reveal_strlit("  ");
                }
            }
            let text: &str = if i < row.len() {
                row[i].as_str()
            } else {
                ""
            };
            proof {
                reveal_strlit("");
                assert(text@ == cell(texts, i as int));
            }
            push_aligned(&mut line, text, widths_v[i], self.columns[i].1);
            proof {
                let sep = if i > 0 {
                    seq![' ', ' ']
                } else {
                    Seq::<char>::empty()
                };
                assert(line@ =~= line_cells(texts, widths(*self), aligns(*self), i + 1));
            }
            i = i + 1;
        }
        push_str(out, str_trim_end(line.as_str()));
        push_char(out, '\n');
    }

    /// Render as aligned columns, two spaces apart, with no trailing whitespace on any line.
    pub fn render(&self) -> (s: String)
        ensures
            s@ == table_text(*self),
    {
        let mut widths_v: Vec<usize> = Vec::new();
        let mut i: usize = 0;
        while i < self.columns.len()
            invariant
                i <= self.columns@.len(),
                widths_v@.len() == i,
                forall|j: int| 0 <= j < i ==> widths_v@[j] == widths(*self)[j],
            decreases self.columns@.len() - i,
        {
            widths_v.push(self.column_width(i));
            i = i + 1;
        }
        let mut headers_v: Vec<String> = Vec::new();
        let mut i: usize = 0;
        while i < self.columns.len()
            invariant
                i <= self.columns@.len(),
                headers_v@.len() == i,
                forall|j: int| 0 <= j < i ==> (#[trigger] headers_v@[j])@ == headers(*self)[j],
            decreases self.columns@.len() - i,
        {
            let mut h = String::new();
            push_str(&mut h, self.columns[i].0);
            headers_v.push(h);
            i = i + 1;
        }
        assert(headers_v@.map_values(|c: String| c@) =~= headers(*self));
        let mut out = String::new();
        self.render_line(&widths_v, &headers_v, &mut out);
        let mut k: usize = 0;
        while k < self.rows.len()
            invariant
                widths_v@.len() == self.columns@.len(),
                forall|j: int| 0 <= j < widths_v@.len() ==> widths_v@[j] == widths(*self)[j],
                k <= self.rows@.len(),
                out@ == table_line(*self, headers(*self)) + table_lines(*self, k as int),
            decreases self.rows@.len() - k,
        {
            self.render_line(&widths_v, &self.rows[k], &mut out);
            proof {
                assert(self.rows@[k as int]@.map_values(|c: String| c@) == row_texts(*self)[k as int]);
            }
            k = k + 1;
        }
        out
    }
}

/// The note names within an octave, from C.
pub open spec fn note_name(k: int) -> Seq<char> {
    if k == 0 {
        seq!['C']
    } else if k == 1 {
        seq!['C', '#']
    } else if k == 2 {
        seq!['D']
    } else if k == 3 {
        seq!['D', '#']
    } else if k == 4 {
        seq!['E']
    } else if k == 5 {
        seq!['F']
    } else if k == 6 {
        seq!['F', '#']
    } else if k == 7 {
        seq!['G']
    } else if k == 8 {
        seq!['G', '#']
    } else if k == 9 {
        seq!['A']
    } else if k == 10 {
        seq!['A', '#']
    } else {
        seq!['B']
    }
}

/// A MIDI note number as a name, e.g. 60 is `C4` (Roland convention: middle C = C4).
pub open spec fn note_text(n: u8) -> Seq<char> {
    note_name((n % 12) as int) + if n < 12 {
        seq!['-', '1']
    } else {
        decimal((n / 12 - 1) as nat)
    }
}

/// A MIDI note number as a name, e.g. 60 -> `C4` (Roland convention: middle C = C4).
pub fn note(n: u8) -> (s: String)
    ensures
        s@ == note_text(n),
{
    let names: [&str; 12] = ["C", "C#", "D", "D#", "E", "F", "F#", "G", "G#", "A", "A#", "B"];
    let k = (n % 12) as usize;
    let mut s = String::new();
    push_str(&mut s, names[k]);
    proof {
        reveal_strlit("C");
        reveal_strlit("C#");
        reveal_strlit("D");
        reveal_strlit("D#");
        reveal_strlit("E");
        reveal_strlit("F");
        reveal_strlit("F#");
        reveal_strlit("G");
        reveal_strlit("G#");
        reveal_strlit("A");
        reveal_strlit("A#");
        reveal_strlit("B");
        assert(names[k as int]@ =~= note_name(k as int));
    }
    if n < 12 {
        push_str(&mut s, "-1");
        proof {
            reveal_strlit("-1");
        }
    } else {
        push_decimal(&mut s, (n / 12 - 1) as u64);
    }
    assert(s@ =~= note_text(n));
    s
}

/// An inclusive range of two values, as `low..high`.
pub fn range(low: u64, high: u64) -> (s: String)
    ensures
        s@ == decimal(low as nat) + ".."@ + decimal(high as nat),
{
    let mut s = String::new();
    push_decimal(&mut s, low);
    push_str(&mut s, "..");
    push_decimal(&mut s, high);
    s
}

/// A zone is off, muted, or on — muted is its own state, since a muted zone still receives.
pub fn zone_state(z: &Zone) -> (s: &'static str)
    ensures
        s == (if !z.enabled {
            "off"
        } else if z.muted {
            "mut"
        } else {
            "on"
        }),
{
    if !z.enabled {
        "off"
    } else if z.muted {
        "mut"
    } else {
        "on"
    }
}

/// A signed offset, always a number: zero as `0`, a positive one with its `+`.
pub open spec fn signed_text(v: i8) -> Seq<char> {
    if v == 0 {
        seq!['0']
    } else if v > 0 {
        seq!['+'] + decimal(v as nat)
    } else {
        seq!['-'] + decimal((-v) as nat)
    }
}

/// A signed offset. Zero prints as `0`, never blank: a blank cell reads as "could not be
/// decoded" rather than "no offset".
pub fn signed(v: i8) -> (s: String)
    ensures
        s@ == signed_text(v),
{
    let mut s = String::new();
    if v == 0 {
        push_char(&mut s, '0');
    } else if v > 0 {
        push_char(&mut s, '+');
        push_decimal(&mut s, v as u64);
    } else {
        push_char(&mut s, '-');
        let magnitude: u64 = (0i16 - v as i16) as u64;
        push_decimal(&mut s, magnitude);
    }
    assert(s@ =~= signed_text(v));
    s
}

/// A zone's tone, named when the file names it, else by its program number.
pub fn tone(t: &ToneRef) -> (s: String)
    ensures
        s@ == match t.name {
            Some(n) => n@,
            None => "PC "@ + padded_decimal(t.address.pc as nat, 3),
        },
{
    match t.name() {
        Some(name) => {
            let mut s = String::new();
            push_str(&mut s, name);
            s
        },
        None => {
            let mut s = String::new();
            push_str(&mut s, "PC ");
            push_padded_decimal(&mut s, t.address.pc as u64, 3);
            s
        },
    }
}

/// The sound engine, or the raw MSB when the address is one we cannot place.
pub fn tone_type(t: &ToneRef) -> (s: String)
    ensures
        s@ == if t.spec_tone_type() == ToneType::Unknown {
            "MSB "@ + decimal(t.address.msb as nat)
        } else {
            t.spec_tone_type().spec_label()@
        },
{
    let kind = t.tone_type();
    let mut s = String::new();
    if matches!(kind, ToneType::Unknown) {
        push_str(&mut s, "MSB ");
        push_decimal(&mut s, t.address.msb as u64);
    } else {
        push_str(&mut s, kind.label());
    }
    s
}

/// The bank label, or the raw LSB when its mapping is unconfirmed. Showing the number beats
/// inventing a name for a bank we have not identified.
pub fn bank(t: &ToneRef) -> (s: String)
    ensures
        s@ == match bank_label(t.spec_tone_type(), t.address.msb, t.address.lsb) {
            Some(b) => b@,
            None => "LSB "@ + decimal(t.address.lsb as nat),
        },
{
    let mut s = String::new();
    match t.bank() {
        Some(b) => push_str(&mut s, b),
        None => {
            push_str(&mut s, "LSB ");
            push_decimal(&mut s, t.address.lsb as u64);
        },
    }
    s
}

/// A four-byte area tag as text.
pub fn area_tag(tag: &[u8; 4]) -> (s: String)
    ensures
        s@ == utf8_lossy(tag@),
{
    lossy_text(tag)
}

/// Bytes as two-digit hex, a space between each.
pub open spec fn hex_text(bytes: Seq<u8>) -> Seq<char>
    decreases bytes.len(),
{
    if bytes.len() == 0 {
        Seq::empty()
    } else if bytes.len() == 1 {
        hex2(bytes[0])
    } else {
        hex_text(bytes.drop_last()) + seq![' '] + hex2(bytes.last())
    }
}

/// Bytes as two-digit hex, a space between each.
pub fn hex(bytes: &[u8]) -> (s: String)
    ensures
        s@ == hex_text(bytes@),
{
    let mut s = String::new();
    let mut i: usize = 0;
    while i < bytes.len()
        invariant
            i <= bytes@.len(),
            s@ == hex_text(bytes@.subrange(0, i as int)),
        decreases bytes@.len() - i,
    {
        assert(bytes@.subrange(0, i + 1).drop_last() =~= bytes@.subrange(0, i as int));
        if i > 0 {
            push_char(&mut s, ' ');
        } else {
            assert(bytes@.subrange(0, 0) =~= Seq::<u8>::empty());
        }
        push_hex2(&mut s, bytes[i]);
        i = i + 1;
    }
    assert(bytes@.subrange(0, i as int) =~= bytes@);
    s
}

/// Bytes as text, with anything unprintable shown as `.`.
pub fn ascii(bytes: &[u8]) -> (s: String)
    ensures
        s@ == bytes@.map_values(|b: u8| shown(b)),
{
    let mut s = String::new();
    let mut i: usize = 0;
    while i < bytes.len()
        invariant
            i <= bytes@.len(),
            s@ == bytes@.subrange(0, i as int).map_values(|b: u8| shown(b)),
        decreases bytes@.len() - i,
    {
        push_char(&mut s, shown_char(bytes[i]));
        i = i + 1;
        assert(s@ =~= bytes@.subrange(0, i as int).map_values(|b: u8| shown(b)));
    }
    assert(bytes@.subrange(0, i as int) =~= bytes@);
    s
}

/// The `s` of a plural count.
pub fn plural(n: usize) -> (s: &'static str)
    ensures
        s == (if n == 1 {
            ""
        } else {
            "s"
        }),
{
    if n == 1 {
        ""
    } else {
        "s"
    }
}

} // verus!

verus! {

/// The `s` of a plural count, as text.
pub open spec fn plural_text(n: int) -> Seq<char> {
    if n == 1 {
        ""@
    } else {
        "s"@
    }
}

/// Names as `{:?}` prints each, comma-separated.
pub open spec fn quoted_text(names: Seq<String>) -> Seq<char>
    decreases names.len(),
{
    if names.len() == 0 {
        Seq::empty()
    } else if names.len() == 1 {
        debug_str(names[0]@)
    } else {
        quoted_text(names.drop_last()) + ", "@ + debug_str(names.last()@)
    }
}

/// One slot requirement: its number right-aligned in three places, what is in it padded to
/// twenty, and which sounds go quiet without it.
pub open spec fn slot_line_text(kind: Seq<char>, slot: SlotRequirement) -> Seq<char> {
    let name = match slot.name {
        Some(n) => n@,
        None => "<not in this file>"@,
    };
    let played_by = if slot.played_by@.len() == 0 {
        Seq::empty()
    } else {
        " (played by "@ + quoted_text(slot.played_by@) + ")"@
    };
    kind + " "@ + aligned(decimal(slot.slot as nat), 3, Align::Right) + "  "@ + aligned(
        name,
        20,
        Align::Left,
    ) + played_by
}

/// A user tone that is referenced and not bundled, as its report line.
pub open spec fn missing_tone_line(t: ToneRequirement) -> Seq<char> {
    "           "@ + t.area@ + "["@ + decimal(t.index as nat) + "]  MSB "@ + decimal(
        t.address.msb as nat,
    ) + " LSB "@ + decimal(t.address.lsb as nat) + " PC "@ + padded_decimal(
        t.address.pc as nat,
        3,
    ) + "\n"@
}

pub open spec fn missing_tone_lines(v: Seq<ToneRequirement>) -> Seq<char>
    decreases v.len(),
{
    if v.len() == 0 {
        Seq::empty()
    } else {
        missing_tone_lines(v.drop_last()) + missing_tone_line(v.last())
    }
}

/// Slot lines, one per slot, indented under their warning.
pub open spec fn slot_lines(kind: Seq<char>, v: Seq<SlotRequirement>) -> Seq<char>
    decreases v.len(),
{
    if v.len() == 0 {
        Seq::empty()
    } else {
        slot_lines(kind, v.drop_last()) + "           "@ + slot_line_text(kind, v.last()) + "\n"@
    }
}

pub open spec fn bank_lines(v: Seq<BankRequirement>) -> Seq<char>
    decreases v.len(),
{
    if v.len() == 0 {
        Seq::empty()
    } else {
        bank_lines(v.drop_last()) + "        "@ + bank_label_text(v.last()) + "\n"@
    }
}

pub open spec fn wave_lines(v: Seq<u16>) -> Seq<char>
    decreases v.len(),
{
    if v.len() == 0 {
        Seq::empty()
    } else {
        wave_lines(v.drop_last()) + "        wave expansion, group id "@ + decimal(v.last() as nat)
            + "\n"@
    }
}

pub open spec fn unclassified_line(a: ToneAddress) -> Seq<char> {
    "        MSB "@ + decimal(a.msb as nat) + " LSB "@ + decimal(a.lsb as nat) + " PC "@
        + padded_decimal(a.pc as nat, 3) + "  (an address this version cannot classify)\n"@
}

pub open spec fn unclassified_lines(v: Seq<ToneAddress>) -> Seq<char>
    decreases v.len(),
{
    if v.len() == 0 {
        Seq::empty()
    } else {
        unclassified_lines(v.drop_last()) + unclassified_line(v.last())
    }
}

/// The warning about user tones that are referenced and not bundled.
pub open spec fn tones_section(needs: Requirements) -> Seq<char> {
    let m = missing_of(needs.user_tones@);
    if m.len() == 0 {
        Seq::empty()
    } else {
        "warning: "@ + decimal(m.len()) + " user tone"@ + plural_text(m.len() as int) + " "@ + (
        if m.len() == 1 {
            "is"@
        } else {
            "are"@
        }) + " referenced but not bundled. A zone pointing at an empty\n         slot plays whatever the destination keeps there:\n"@
            + missing_tone_lines(m)
    }
}

/// The warning about samples the tones play that the file does not carry.
pub open spec fn samples_section(needs: Requirements) -> Seq<char> {
    let m = uncarried_of(needs.samples@);
    if m.len() == 0 {
        Seq::empty()
    } else {
        "warning: the tones play "@ + decimal(m.len()) + " user sample"@ + plural_text(
            m.len() as int,
        ) + " this file does not carry — a tone references\n         a sample *slot*, so the audio stays on the instrument. The destination\n         needs these samples in these slots:\n"@
            + slot_lines("slot"@, m)
    }
}

/// The warning about multisamples the file does not carry.
pub open spec fn multisamples_section(needs: Requirements) -> Seq<char> {
    let m = uncarried_of(needs.multisamples@);
    if m.len() == 0 {
        Seq::empty()
    } else {
        "warning: the tones also play "@ + decimal(m.len()) + " user multisample"@ + plural_text(
            m.len() as int,
        ) + ". The samples each one maps across\n         the keyboard are in the list above, but the multisample itself cannot\n         travel in a scene bank — the destination must hold it, or you must\n         rebuild it over those slots:\n"@
            + slot_lines("multisample"@, m)
    }
}

/// The note about content that only an instrument can hold.
pub open spec fn installed_section(needs: Requirements) -> Seq<char> {
    if expansions_of(needs.banks@).len() > 0 || needs.wave_expansions@.len() > 0
        || needs.unclassified@.len() > 0 {
        "note: this material also plays content that lives in the instrument rather than in\n      any file, and is never substituted. The destination must already have it:\n"@
            + bank_lines(expansions_of(needs.banks@)) + wave_lines(needs.wave_expansions@)
            + unclassified_lines(needs.unclassified@)
    } else {
        Seq::empty()
    }
}

/// The warning about carried samples whose audio is silence.
pub open spec fn silent_section(needs: Requirements) -> Seq<char> {
    let m = silent_of(needs.samples@);
    if m.len() == 0 {
        Seq::empty()
    } else {
        "warning: "@ + decimal(m.len()) + " of the sample"@ + plural_text(
            needs.samples@.len() as int,
        ) + " carried here hold"@ + (if m.len() == 1 {
            "s"@
        } else {
            ""@
        }) + " no audio at all — the source keeps\n         their names and lengths and none of their sound. The instrument may well\n         still play them: a tone the instrument itself exported carried zeros for\n         these too, and nothing in a file marks the difference (see\n         docs/FORMAT.md). Re-import the samples on the instrument and take a\n         fresh backup, or they cannot travel:\n"@
            + slot_lines("slot"@, m)
    }
}

/// The note on what the file brings with it: carried samples and multisamples.
pub open spec fn carried_section(needs: Requirements) -> Seq<char> {
    let samples = needs.samples@.len() - uncarried_of(needs.samples@).len();
    let multisamples = needs.multisamples@.len() - uncarried_of(needs.multisamples@).len();
    let a = decimal(samples as nat) + " user sample"@ + plural_text(samples);
    let b = decimal(multisamples as nat) + " multisample"@ + plural_text(multisamples);
    if samples > 0 && multisamples > 0 {
        "note: carries the "@ + a + " and "@ + b + " it plays.\n"@
    } else if samples > 0 {
        "note: carries the "@ + a + " it plays.\n"@
    } else if multisamples > 0 {
        "note: carries the "@ + b + " it plays.\n"@
    } else {
        Seq::empty()
    }
}

/// The one line on factory sounds: counted, never listed.
pub open spec fn factory_section(needs: Requirements) -> Seq<char> {
    let factory = needs.banks@.len() - expansions_of(needs.banks@).len();
    if factory > 0 {
        "note: also plays "@ + decimal(factory as nat) + " factory sound"@ + plural_text(factory)
            + ", which every FANTOM has.\n"@
    } else {
        Seq::empty()
    }
}

/// The whole requirements report, section by section.
pub open spec fn requirements_text(needs: Requirements) -> Seq<char> {
    tones_section(needs) + samples_section(needs) + multisamples_section(needs)
        + installed_section(needs) + silent_section(needs) + carried_section(needs)
        + factory_section(needs)
}

} // verus!

verus! {

/// Names as `{:?}` prints each, comma-separated.
fn quoted(names: &[String]) -> (s: String)
    ensures
        s@ == quoted_text(names@),
{
    let mut s = String::new();
    let mut i: usize = 0;
    while i < names.len()
        invariant
            i <= names@.len(),
            s@ == quoted_text(names@.subrange(0, i as int)),
        decreases names@.len() - i,
    {
        assert(names@.subrange(0, i + 1).drop_last() =~= names@.subrange(0, i as int));
        if i > 0 {
            push_str(&mut s, ", ");
        }
        push_debug_str(&mut s, names[i].as_str());
        i = i + 1;
    }
    assert(names@.subrange(0, i as int) =~= names@);
    s
}

/// One slot requirement: its number, what is in it, and which sound goes quiet without it.
fn slot_line(kind: &str, slot: &SlotRequirement) -> (s: String)
    ensures
        s@ == slot_line_text(kind@, *slot),
{
    let mut s = String::new();
    push_str(&mut s, kind);
    push_str(&mut s, " ");
    let mut number = String::new();
    push_decimal(&mut number, slot.slot as u64);
    push_aligned(&mut s, number.as_str(), 3, Align::Right);
    push_str(&mut s, "  ");
    match &slot.name {
        Some(name) => push_aligned(&mut s, name.as_str(), 20, Align::Left),
        None => push_aligned(&mut s, "<not in this file>", 20, Align::Left),
    }
    if slot.played_by.len() > 0 {
        push_str(&mut s, " (played by ");
        let q = quoted(slot.played_by.as_slice());
        push_str(&mut s, q.as_str());
        push_str(&mut s, ")");
    }
    s
}

fn push_slot_lines(out: &mut String, kind: &str, v: &Vec<&SlotRequirement>, Ghost(m): Ghost<
    Seq<SlotRequirement>,
>)
    requires
        v@.len() == m.len(),
        forall|k: int| 0 <= k < v@.len() ==> *v@[k] == m[k],
    ensures
        final(out)@ == old(out)@ + slot_lines(kind@, m),
{
    let mut i: usize = 0;
    while i < v.len()
        invariant
            i <= v@.len(),
            v@.len() == m.len(),
            forall|k: int| 0 <= k < v@.len() ==> *v@[k] == m[k],
            out@ == old(out)@ + slot_lines(kind@, m.subrange(0, i as int)),
        decreases v@.len() - i,
    {
        assert(m.subrange(0, i + 1).drop_last() =~= m.subrange(0, i as int));
        push_str(out, "           ");
        let line = slot_line(kind, v[i]);
        push_str(out, line.as_str());
        push_str(out, "\n");
        i = i + 1;
        assert(out@ =~= old(out)@ + slot_lines(kind@, m.subrange(0, i as int)));
    }
    assert(m.subrange(0, i as int) =~= m);
}

fn push_tones_section(out: &mut String, needs: &Requirements)
    ensures
        final(out)@ == old(out)@ + tones_section(*needs),
{
    let missing = needs.missing_tones();
    let ghost m = missing_of(needs.user_tones@);
    if missing.len() == 0 {
        assert(out@ =~= old(out)@ + tones_section(*needs));
        return;
    }
    push_str(out, "warning: ");
    push_decimal(out, missing.len() as u64);
    push_str(out, " user tone");
    push_str(out, plural(missing.len()));
    push_str(out, " ");
    push_str(out, if missing.len() == 1 { "is" } else { "are" });
    push_str(
        out,
        " referenced but not bundled. A zone pointing at an empty\n         slot plays whatever the destination keeps there:\n",
    );
    let ghost head = out@;
    let mut i: usize = 0;
    while i < missing.len()
        invariant
            i <= missing@.len(),
            missing@.len() == m.len(),
            forall|k: int| 0 <= k < missing@.len() ==> *missing@[k] == m[k],
            out@ == head + missing_tone_lines(m.subrange(0, i as int)),
        decreases missing@.len() - i,
    {
        assert(m.subrange(0, i + 1).drop_last() =~= m.subrange(0, i as int));
        let t = missing[i];
        push_str(out, "           ");
        push_str(out, t.area.as_str());
        push_str(out, "[");
        push_decimal(out, t.index as u64);
        push_str(out, "]  MSB ");
        push_decimal(out, t.address.msb as u64);
        push_str(out, " LSB ");
        push_decimal(out, t.address.lsb as u64);
        push_str(out, " PC ");
        push_padded_decimal(out, t.address.pc as u64, 3);
        push_str(out, "\n");
        i = i + 1;
        assert(out@ =~= head + missing_tone_lines(m.subrange(0, i as int)));
    }
    assert(m.subrange(0, i as int) =~= m);
    assert(out@ =~= old(out)@ + tones_section(*needs));
}


fn uncarried(v: &Vec<SlotRequirement>) -> (out: Vec<&SlotRequirement>)
    ensures
        out@.len() == uncarried_of(v@).len(),
        forall|k: int| 0 <= k < out@.len() ==> *out@[k] == uncarried_of(v@)[k],
{
    let mut out: Vec<&SlotRequirement> = Vec::new();
    let mut i: usize = 0;
    while i < v.len()
        invariant
            i <= v@.len(),
            out@.len() == uncarried_of(v@.subrange(0, i as int)).len(),
            forall|k: int|
                0 <= k < out@.len() ==> *out@[k] == uncarried_of(v@.subrange(0, i as int))[k],
        decreases v@.len() - i,
    {
        assert(v@.subrange(0, i + 1).drop_last() =~= v@.subrange(0, i as int));
        if !v[i].carried {
            out.push(&v[i]);
        }
        i = i + 1;
    }
    assert(v@.subrange(0, i as int) =~= v@);
    out
}

fn push_samples_section(out: &mut String, needs: &Requirements)
    ensures
        final(out)@ == old(out)@ + samples_section(*needs),
{
    let missing = needs.missing_samples();
    if missing.len() == 0 {
        assert(out@ =~= old(out)@ + samples_section(*needs));
        return;
    }
    push_str(out, "warning: the tones play ");
    push_decimal(out, missing.len() as u64);
    push_str(out, " user sample");
    push_str(out, plural(missing.len()));
    push_str(
        out,
        " this file does not carry — a tone references\n         a sample *slot*, so the audio stays on the instrument. The destination\n         needs these samples in these slots:\n",
    );
    push_slot_lines(out, "slot", &missing, Ghost(uncarried_of(needs.samples@)));
    assert(out@ =~= old(out)@ + samples_section(*needs));
}

fn push_multisamples_section(out: &mut String, needs: &Requirements)
    ensures
        final(out)@ == old(out)@ + multisamples_section(*needs),
{
    let missing = uncarried(&needs.multisamples);
    if missing.len() == 0 {
        assert(out@ =~= old(out)@ + multisamples_section(*needs));
        return;
    }
    push_str(out, "warning: the tones also play ");
    push_decimal(out, missing.len() as u64);
    push_str(out, " user multisample");
    push_str(out, plural(missing.len()));
    push_str(
        out,
        ". The samples each one maps across\n         the keyboard are in the list above, but the multisample itself cannot\n         travel in a scene bank — the destination must hold it, or you must\n         rebuild it over those slots:\n",
    );
    push_slot_lines(out, "multisample", &missing, Ghost(uncarried_of(needs.multisamples@)));
    assert(out@ =~= old(out)@ + multisamples_section(*needs));
}

#[verifier::spinoff_prover]
#[verifier::rlimit(30)]
fn push_installed_section(out: &mut String, needs: &Requirements)
    ensures
        final(out)@ == old(out)@ + installed_section(*needs),
{
    if !needs.needs_installed_content() {
        assert(out@ =~= old(out)@ + installed_section(*needs));
        return;
    }
    push_str(
        out,
        "note: this material also plays content that lives in the instrument rather than in\n      any file, and is never substituted. The destination must already have it:\n",
    );
    let ghost head = out@;
    let banks = needs.expansions();
    let ghost m = expansions_of(needs.banks@);
    let mut i: usize = 0;
    while i < banks.len()
        invariant
            i <= banks@.len(),
            banks@.len() == m.len(),
            forall|k: int| 0 <= k < banks@.len() ==> *banks@[k] == m[k],
            out@ == head + bank_lines(m.subrange(0, i as int)),
        decreases banks@.len() - i,
    {
        assert(m.subrange(0, i + 1).drop_last() =~= m.subrange(0, i as int));
        push_str(out, "        ");
        let label = banks[i].label();
        push_str(out, label.as_str());
        push_str(out, "\n");
        i = i + 1;
        assert(out@ =~= head + bank_lines(m.subrange(0, i as int)));
    }
    assert(m.subrange(0, i as int) =~= m);
    let ghost head2 = out@;
    let waves = &needs.wave_expansions;
    let mut j: usize = 0;
    while j < waves.len()
        invariant
            j <= waves@.len(),
            out@ == head2 + wave_lines(waves@.subrange(0, j as int)),
        decreases waves@.len() - j,
    {
        assert(waves@.subrange(0, j + 1).drop_last() =~= waves@.subrange(0, j as int));
        push_str(out, "        wave expansion, group id ");
        push_decimal(out, waves[j] as u64);
        push_str(out, "\n");
        j = j + 1;
        assert(out@ =~= head2 + wave_lines(waves@.subrange(0, j as int)));
    }
    assert(waves@.subrange(0, j as int) =~= waves@);
    let ghost head3 = out@;
    let addresses = &needs.unclassified;
    let mut k: usize = 0;
    while k < addresses.len()
        invariant
            k <= addresses@.len(),
            out@ == head3 + unclassified_lines(addresses@.subrange(0, k as int)),
        decreases addresses@.len() - k,
    {
        assert(addresses@.subrange(0, k + 1).drop_last() =~= addresses@.subrange(0, k as int));
        let a = addresses[k];
        push_str(out, "        MSB ");
        push_decimal(out, a.msb as u64);
        push_str(out, " LSB ");
        push_decimal(out, a.lsb as u64);
        push_str(out, " PC ");
        push_padded_decimal(out, a.pc as u64, 3);
        push_str(out, "  (an address this version cannot classify)\n");
        k = k + 1;
        assert(out@ =~= head3 + unclassified_lines(addresses@.subrange(0, k as int)));
    }
    assert(addresses@.subrange(0, k as int) =~= addresses@);
    assert(out@ =~= old(out)@ + installed_section(*needs));
}

fn push_silent_section(out: &mut String, needs: &Requirements)
    ensures
        final(out)@ == old(out)@ + silent_section(*needs),
{
    let silent = needs.silent_samples();
    if silent.len() == 0 {
        assert(out@ =~= old(out)@ + silent_section(*needs));
        return;
    }
    push_str(out, "warning: ");
    push_decimal(out, silent.len() as u64);
    push_str(out, " of the sample");
    push_str(out, plural(needs.samples.len()));
    push_str(out, " carried here hold");
    push_str(out, if silent.len() == 1 { "s" } else { "" });
    push_str(
        out,
        " no audio at all — the source keeps\n         their names and lengths and none of their sound. The instrument may well\n         still play them: a tone the instrument itself exported carried zeros for\n         these too, and nothing in a file marks the difference (see\n         docs/FORMAT.md). Re-import the samples on the instrument and take a\n         fresh backup, or they cannot travel:\n",
    );
    push_slot_lines(out, "slot", &silent, Ghost(silent_of(needs.samples@)));
    assert(out@ =~= old(out)@ + silent_section(*needs));
}

fn push_carried_section(out: &mut String, needs: &Requirements)
    ensures
        final(out)@ == old(out)@ + carried_section(*needs),
{
    proof {
        lemma_uncarried_len(needs.samples@);
        lemma_uncarried_len(needs.multisamples@);
    }
    let samples = needs.samples.len() - needs.missing_samples().len();
    let multisamples = needs.multisamples.len() - uncarried(&needs.multisamples).len();
    let mut a = String::new();
    push_decimal(&mut a, samples as u64);
    push_str(&mut a, " user sample");
    push_str(&mut a, plural(samples));
    let mut b = String::new();
    push_decimal(&mut b, multisamples as u64);
    push_str(&mut b, " multisample");
    push_str(&mut b, plural(multisamples));
    if samples > 0 || multisamples > 0 {
        push_str(out, "note: carries the ");
        if samples > 0 {
            push_str(out, a.as_str());
            if multisamples > 0 {
                push_str(out, " and ");
            }
        }
        if multisamples > 0 {
            push_str(out, b.as_str());
        }
        push_str(out, " it plays.\n");
    }
    assert(out@ =~= old(out)@ + carried_section(*needs));
}

fn push_factory_section(out: &mut String, needs: &Requirements)
    ensures
        final(out)@ == old(out)@ + factory_section(*needs),
{
    proof {
        lemma_expansions_len(needs.banks@);
    }
    let factory = needs.banks.len() - needs.expansions().len();
    if factory > 0 {
        push_str(out, "note: also plays ");
        push_decimal(out, factory as u64);
        push_str(out, " factory sound");
        push_str(out, plural(factory));
        push_str(out, ", which every FANTOM has.\n");
    }
    assert(out@ =~= old(out)@ + factory_section(*needs));
}

/// The requirements report: what a destination must hold for this material to play as its
/// author heard it, and what the file brings with it. Empty when nothing is required.
pub fn requirements(needs: &Requirements) -> (s: String)
    ensures
        s@ == requirements_text(*needs),
{
    let mut out = String::new();
    push_tones_section(&mut out, needs);
    push_samples_section(&mut out, needs);
    push_multisamples_section(&mut out, needs);
    push_installed_section(&mut out, needs);
    push_silent_section(&mut out, needs);
    push_carried_section(&mut out, needs);
    push_factory_section(&mut out, needs);
    assert(out@ =~= requirements_text(*needs));
    out
}


/// `s` from `at`: `len` bytes, or as many as there are; none when `at` is past its end.
pub open spec fn window_of(s: Seq<u8>, at: int, len: int) -> Seq<u8> {
    let end = if at + len < s.len() {
        at + len
    } else {
        s.len() as int
    };
    if at <= end {
        s.subrange(at, end)
    } else {
        Seq::empty()
    }
}

fn window(raw: &Raw, at: usize, len: usize) -> (w: Vec<u8>)
    requires
        at + len <= usize::MAX,
    ensures
        w@ == window_of(raw@, at as int, len as int),
{
    let b = raw.bytes();
    let end = if at + len < b.len() {
        at + len
    } else {
        b.len()
    };
    if at <= end {
        copy_range(b, at, end)
    } else {
        Vec::new()
    }
}

/// The smallest of four counts.
pub open spec fn least(a: nat, b: nat, c: nat, d: nat) -> nat {
    let ab = if a < b { a } else { b };
    let cd = if c < d { c } else { d };
    if ab < cd { ab } else { cd }
}

/// The bytes a differing run shows on each side, and the record offset they start at: the run
/// itself, or with `context` bytes around it — as many before it as both files and the record
/// itself have room for.
pub open spec fn run_shown(run: ByteRun, l: Seq<u8>, r: Seq<u8>, context: nat) -> (Seq<u8>, Seq<u8>, int) {
    if context == 0 {
        (run.left@, run.right@, run.offset as int)
    } else {
        let before = least(context, run.offset as nat, run.left_at as nat, run.right_at as nat);
        (
            window_of(l, run.left_at - before, (before + run.left@.len() + context) as int),
            window_of(r, run.right_at - before, (before + run.right@.len() + context) as int),
            run.offset - before,
        )
    }
}

/// One differing run as `WHERE+0xoffset  @0xfile-offset  old -> new  |old| -> |new|`.
pub open spec fn run_text(at: Seq<char>, run: ByteRun, l: Seq<u8>, r: Seq<u8>, context: nat) -> Seq<char> {
    let (lb, rb, off) = run_shown(run, l, r, context);
    at + "+0x"@ + hex_padded(off as nat, 4) + "  @0x"@ + hex_padded(run.left_at as nat, 6) + "  "@
        + hex_text(lb) + " -> "@ + hex_text(rb) + "  |"@ + lb.map_values(|b: u8| shown(b)) + "| -> |"@
        + rb.map_values(|b: u8| shown(b)) + "|"@
}

/// Render one differing run, with `context` unchanged bytes on either side.
pub fn render_run(at: &str, run: &ByteRun, left: &Raw, right: &Raw, context: usize) -> (s: String)
    requires
        run.left_at + run.left@.len() + context <= usize::MAX,
        run.right_at + run.right@.len() + context <= usize::MAX,
    ensures
        s@ == run_text(at@, *run, left@, right@, context as nat),
{
    let (lb, rb, off) = if context == 0 {
        (copy_range(run.left.as_slice(), 0, run.left.len()), copy_range(run.right.as_slice(), 0, run.right.len()), run.offset)
    } else {
        let mut before = context;
        if run.offset < before {
            before = run.offset;
        }
        if run.left_at < before {
            before = run.left_at;
        }
        if run.right_at < before {
            before = run.right_at;
        }
        assert(before == least(context as nat, run.offset as nat, run.left_at as nat, run.right_at as nat));
        (
            window(left, run.left_at - before, before + run.left.len() + context),
            window(right, run.right_at - before, before + run.right.len() + context),
            run.offset - before,
        )
    };
    assert(run.left@.subrange(0, run.left@.len() as int) =~= run.left@);
    assert(run.right@.subrange(0, run.right@.len() as int) =~= run.right@);
    assert((lb@, rb@, off as int) == run_shown(*run, left@, right@, context as nat));
    let mut s = String::new();
    push_str(&mut s, at);
    push_str(&mut s, "+0x");
    push_hex_padded(&mut s, off, 4);
    push_str(&mut s, "  @0x");
    push_hex_padded(&mut s, run.left_at, 6);
    push_str(&mut s, "  ");
    let hl = hex(lb.as_slice());
    push_str(&mut s, hl.as_str());
    push_str(&mut s, " -> ");
    let hr = hex(rb.as_slice());
    push_str(&mut s, hr.as_str());
    push_str(&mut s, "  |");
    let al = ascii(lb.as_slice());
    push_str(&mut s, al.as_str());
    push_str(&mut s, "| -> |");
    let ar = ascii(rb.as_slice());
    push_str(&mut s, ar.as_str());
    push_str(&mut s, "|");
    assert(s@ =~= run_text(at@, *run, left@, right@, context as nat));
    s
}


/// A zone's pan in Roland's notation: `L64` to the left, `C` at the centre, `63R` to the right.
pub open spec fn pan_text(v: i8) -> Seq<char> {
    if v < 0 {
        seq!['L'] + decimal((-v) as nat)
    } else if v == 0 {
        seq!['C']
    } else {
        decimal(v as nat) + seq!['R']
    }
}

/// Render a zone's pan.
pub fn pan(v: i8) -> (s: String)
    ensures
        s@ == pan_text(v),
{
    let mut s = String::new();
    if v < 0 {
        push_char(&mut s, 'L');
        let m: i16 = -(v as i16);
        push_decimal(&mut s, m as u64);
    } else if v == 0 {
        push_char(&mut s, 'C');
    } else {
        push_decimal(&mut s, v as u64);
        push_char(&mut s, 'R');
    }
    assert(s@ =~= pan_text(v));
    s
}

} // verus!
