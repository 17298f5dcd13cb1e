//! Which SVD area a zone's tone address points into, and at which record.
//!
//! A zone stores its tone as a MIDI bank/program tuple — `MSB`, `LSB`, `PC`. The MSB selects the
//! sound engine, and for user sounds the LSB/PC pair is a plain index into that engine's area:
//!
//! ```text
//! index = (LSB - first_lsb) * 128 + PC        for LSB < 64
//! ```
//!
//! `LSB >= 64` is a factory ROM bank: those sounds live in the instrument, never in the file.
//! This table is the single source of truth for that mapping; reading and repackaging both
//! consult it.

use vstd::prelude::*;
use vstd::string::StringSliceAdditionalSpecFns;

use crate::bytes::same_tag;
use crate::model::ToneType;
use crate::text::{all_ascii, ascii_chars, ascii_trim, field_text, is_pad, lossy_text, trimmed_len, utf8_lossy};
use crate::{Error, Result};

verus! {

/// Program-change values per LSB page.
pub const PC_PER_PAGE: usize = 128;

/// The first LSB of the factory ROM banks. User banks are below it.
pub const FIRST_PRESET_LSB: u8 = 64;

/// Length of a record's name field.
pub const NAME_LEN: usize = 16;

/// How many user banks the table lists.
pub const AREA_COUNT: usize = 9;

/// One engine's user bank: the area that stores it and how its records are addressed.
#[derive(Debug, Clone, Copy, PartialEq, Eq)]
pub struct AreaSpec {
    /// The area holding the records.
    pub tag: [u8; 4],
    /// An area indexed in lockstep with `tag`: a drum kit is `RHYa[i]` plus its 88 instruments in
    /// `INSa[i]`, so the pair can only ever be copied and renumbered together.
    pub companion: Option<[u8; 4]>,
    /// Engine this bank belongs to.
    pub tone_type: ToneType,
    /// Bank Select MSB selecting this engine.
    pub msb: u8,
    /// Lowest LSB of the user bank (1 for `ZEPa`, which shares MSB 105 with `ZAPa`).
    pub lsb_first: u8,
    /// Highest LSB of the user bank.
    pub lsb_last: u8,
    /// Offset of the 16-byte name within a record.
    pub name_offset: usize,
    /// Whether the name is stored as four byte-reversed 4-byte words (`ACBa`).
    pub word_swapped: bool,
    /// Record internals are undecoded: copy verbatim, never interpret beyond the name.
    pub opaque: bool,
    /// Whether we can tell which user samples a record of this engine plays.
    pub sample_refs_decoded: bool,
}

/// The four bytes of a tag spelled in ASCII.
pub open spec fn tag4(a: char, b: char, c: char, d: char) -> Seq<u8> {
    seq![a as u8, b as u8, c as u8, d as u8]
}

/// The tag of table row `i`, in the order areas appear on disk.
pub open spec fn row_tag(i: int) -> Seq<u8> {
    if i == 0 {
        tag4('P', 'A', 'T', 'a')
    } else if i == 1 {
        tag4('R', 'H', 'Y', 'a')
    } else if i == 2 {
        tag4('V', 'T', 'W', 'a')
    } else if i == 3 {
        tag4('S', 'N', 'A', 'a')
    } else if i == 4 {
        tag4('Z', 'A', 'P', 'a')
    } else if i == 5 {
        tag4('Z', 'E', 'P', 'a')
    } else if i == 6 {
        tag4('A', 'C', 'B', 'a')
    } else if i == 7 {
        tag4('D', 'C', 'W', 'a')
    } else {
        tag4('M', 'D', 'L', 'a')
    }
}

pub open spec fn row_type(i: int) -> ToneType {
    if i == 0 {
        ToneType::ZenCore
    } else if i == 1 {
        ToneType::Drum
    } else if i == 2 {
        ToneType::Vtw
    } else if i == 3 {
        ToneType::SnA
    } else if i == 4 {
        ToneType::SnAp
    } else if i == 5 {
        ToneType::SnEp
    } else if i == 6 {
        ToneType::Acb
    } else if i == 7 {
        ToneType::VPiano
    } else {
        ToneType::Model
    }
}

pub open spec fn row_msb(i: int) -> u8 {
    if i == 0 {
        87
    } else if i == 1 {
        86
    } else if i == 2 {
        91
    } else if i == 3 {
        89
    } else if i == 4 || i == 5 {
        105
    } else if i == 6 {
        107
    } else if i == 7 {
        90
    } else {
        97
    }
}

pub open spec fn row_lsb_first(i: int) -> u8 {
    if i == 5 {
        1
    } else {
        0
    }
}

pub open spec fn row_lsb_last(i: int) -> u8 {
    if i == 4 {
        0
    } else if i == 5 {
        1
    } else {
        63
    }
}

/// Whether `a` is exactly row `i` of the bank table.
pub open spec fn is_row(a: AreaSpec, i: int) -> bool {
    &&& 0 <= i < AREA_COUNT
    &&& a.tag@ == row_tag(i)
    &&& (a.companion is Some <==> i == 1)
    &&& (a.companion matches Some(t) ==> t@ == tag4('I', 'N', 'S', 'a'))
    &&& a.tone_type == row_type(i)
    &&& a.msb == row_msb(i)
    &&& a.lsb_first == row_lsb_first(i)
    &&& a.lsb_last == row_lsb_last(i)
    &&& a.name_offset == (if i == 6 {
        0x1c44usize
    } else if i == 8 {
        0x10usize
    } else {
        0usize
    })
    &&& a.word_swapped == (i == 6)
    &&& a.opaque == (i == 6 || i == 7 || i == 8)
    &&& a.sample_refs_decoded == (i == 0 || i == 1)
}

/// The tag of table row `i`, as the four bytes an area table stores.
pub open spec fn row_tag_bytes(i: int) -> [u8; 4] {
    if i == 0 {
        [0x50u8, 0x41, 0x54, 0x61]
    } else if i == 1 {
        [0x52u8, 0x48, 0x59, 0x61]
    } else if i == 2 {
        [0x56u8, 0x54, 0x57, 0x61]
    } else if i == 3 {
        [0x53u8, 0x4e, 0x41, 0x61]
    } else if i == 4 {
        [0x5au8, 0x41, 0x50, 0x61]
    } else if i == 5 {
        [0x5au8, 0x45, 0x50, 0x61]
    } else if i == 6 {
        [0x41u8, 0x43, 0x42, 0x61]
    } else if i == 7 {
        [0x44u8, 0x43, 0x57, 0x61]
    } else {
        [0x4du8, 0x44, 0x4c, 0x61]
    }
}

/// `INSa`, the drum kits' instrument area, as four bytes.
pub open spec fn ins_tag_bytes() -> [u8; 4] {
    [0x49u8, 0x4e, 0x53, 0x61]
}

/// The areas row `i` holds records in, as four-byte tags: its own, then its companion's.
pub open spec fn row_paired_bytes(i: int) -> Seq<[u8; 4]> {
    if i == 1 {
        seq![row_tag_bytes(i), ins_tag_bytes()]
    } else {
        seq![row_tag_bytes(i)]
    }
}

/// A row's tags as bytes are its tags as sequences.
pub proof fn lemma_row_bytes(a: AreaSpec, i: int)
    requires
        is_row(a, i),
    ensures
        a.tag == row_tag_bytes(i),
        row_tag_bytes(i)@ == row_tag(i),
        a.companion matches Some(t) ==> t == ins_tag_bytes(),
        ins_tag_bytes()@ == tag4('I', 'N', 'S', 'a'),
        row_paired_bytes(i).len() == row_paired(i).len(),
        forall|k: int| 0 <= k < row_paired(i).len() ==> (#[trigger] row_paired_bytes(i)[k])@ == row_paired(i)[k],
{
    assert(a.tag =~= row_tag_bytes(i));
    assert(row_tag_bytes(i)@ =~= row_tag(i));
    assert(ins_tag_bytes()@ =~= tag4('I', 'N', 'S', 'a'));
    if let Some(t) = a.companion {
        assert(t =~= ins_tag_bytes());
    }
}

/// The row the table lists at position `i`.
pub fn area_at(i: usize) -> (a: AreaSpec)
    requires
        i < AREA_COUNT,
    ensures
        is_row(a, i as int),
{
    let base = AreaSpec {
        tag: [0x50u8, 0x41, 0x54, 0x61],
        companion: None,
        tone_type: ToneType::ZenCore,
        msb: 87,
        lsb_first: 0,
        lsb_last: 63,
        name_offset: 0,
        word_swapped: false,
        opaque: false,
        sample_refs_decoded: true,
    };
    let a = if i == 0 {
        base
    } else if i == 1 {
        AreaSpec {
            tag: [0x52u8, 0x48, 0x59, 0x61],
            companion: Some([0x49u8, 0x4e, 0x53, 0x61]),
            tone_type: ToneType::Drum,
            msb: 86,
            ..base
        }
    } else if i == 2 {
        AreaSpec {
            tag: [0x56u8, 0x54, 0x57, 0x61],
            tone_type: ToneType::Vtw,
            msb: 91,
            sample_refs_decoded: false,
            ..base
        }
    } else if i == 3 {
        AreaSpec {
            tag: [0x53u8, 0x4e, 0x41, 0x61],
            tone_type: ToneType::SnA,
            msb: 89,
            sample_refs_decoded: false,
            ..base
        }
    } else if i == 4 {
        AreaSpec {
            tag: [0x5au8, 0x41, 0x50, 0x61],
            tone_type: ToneType::SnAp,
            msb: 105,
            lsb_last: 0,
            sample_refs_decoded: false,
            ..base
        }
    } else if i == 5 {
        AreaSpec {
            tag: [0x5au8, 0x45, 0x50, 0x61],
            tone_type: ToneType::SnEp,
            msb: 105,
            lsb_first: 1,
            lsb_last: 1,
            sample_refs_decoded: false,
            ..base
        }
    } else if i == 6 {
        AreaSpec {
            tag: [0x41u8, 0x43, 0x42, 0x61],
            tone_type: ToneType::Acb,
            msb: 107,
            name_offset: 0x1c44,
            word_swapped: true,
            opaque: true,
            sample_refs_decoded: false,
            ..base
        }
    } else if i == 7 {
        AreaSpec {
            tag: [0x44u8, 0x43, 0x57, 0x61],
            tone_type: ToneType::VPiano,
            msb: 90,
            opaque: true,
            sample_refs_decoded: false,
            ..base
        }
    } else {
        AreaSpec {
            tag: [0x4du8, 0x44, 0x4c, 0x61],
            tone_type: ToneType::Model,
            msb: 97,
            name_offset: 0x10,
            opaque: true,
            sample_refs_decoded: false,
            ..base
        }
    };
    assert(a.tag@ =~= row_tag(i as int));
    proof {
        if let Some(t) = a.companion {
            assert(t@ =~= tag4('I', 'N', 'S', 'a'));
        }
    }
    a
}

/// Whether row `i` is the user bank an `(MSB, LSB)` pair selects.
pub open spec fn row_selects(i: int, msb: u8, lsb: u8) -> bool {
    row_msb(i) == msb && row_lsb_first(i) <= lsb && lsb <= row_lsb_last(i)
}

/// The first row at or after `from` selected by `(msb, lsb)`.
pub open spec fn first_row(msb: u8, lsb: u8, from: int) -> Option<int>
    decreases AREA_COUNT - from,
{
    if from >= AREA_COUNT || from < 0 {
        None
    } else if row_selects(from, msb, lsb) {
        Some(from)
    } else {
        first_row(msb, lsb, from + 1)
    }
}

/// The row of the bank an address selects: `None` for factory ROM (`LSB >= 64`) and for
/// engines whose user bank is not in the table.
pub open spec fn bank_row(msb: u8, lsb: u8) -> Option<int> {
    if lsb >= FIRST_PRESET_LSB {
        None
    } else {
        first_row(msb, lsb, 0)
    }
}

pub proof fn lemma_first_row(msb: u8, lsb: u8, from: int)
    requires
        0 <= from,
    ensures
        first_row(msb, lsb, from) matches Some(i) ==> from <= i < AREA_COUNT && row_selects(
            i,
            msb,
            lsb,
        ),
    decreases AREA_COUNT - from,
{
    if from < AREA_COUNT && !row_selects(from, msb, lsb) {
        lemma_first_row(msb, lsb, from + 1);
    }
}

/// The bank a `(MSB, LSB)` pair selects, or `None` for factory ROM and unknown engines.
pub fn area_spec(msb: u8, lsb: u8) -> (r: Option<AreaSpec>)
    ensures
        bank_row(msb, lsb) is None ==> r is None,
        bank_row(msb, lsb) matches Some(i) ==> r matches Some(a) && is_row(a, i),
{
    if lsb >= FIRST_PRESET_LSB {
        return None;
    }
    let mut i: usize = 0;
    while i < AREA_COUNT
        invariant
            i <= AREA_COUNT,
            first_row(msb, lsb, 0) == first_row(msb, lsb, i as int),
        decreases AREA_COUNT - i,
    {
        let a = area_at(i);
        if a.msb == msb && a.lsb_first <= lsb && lsb <= a.lsb_last {
            return Some(a);
        }
        i = i + 1;
    }
    None
}

/// The record index an address points at within its bank's area.
pub open spec fn record_index(msb: u8, lsb: u8, pc: u8) -> int {
    match bank_row(msb, lsb) {
        Some(i) => (lsb - row_lsb_first(i)) * PC_PER_PAGE + pc,
        None => 0,
    }
}

/// Resolve a zone's tone address to the area and record index it points at.
///
/// `None` means the address is not a user record in this file: a factory ROM bank, or an engine
/// whose storage is not confirmed.
pub fn resolve(msb: u8, lsb: u8, pc: u8) -> (r: Option<(AreaSpec, usize)>)
    ensures
        bank_row(msb, lsb) is None ==> r is None,
        bank_row(msb, lsb) matches Some(i) ==> r matches Some((a, index)) && is_row(a, i) && index
            == record_index(msb, lsb, pc),
{
    proof {
        lemma_first_row(msb, lsb, 0);
    }
    match area_spec(msb, lsb) {
        Some(a) => {
            let index = (lsb - a.lsb_first) as usize * PC_PER_PAGE + pc as usize;
            Some((a, index))
        },
        None => None,
    }
}

/// The row whose tag is `tag`, searching from `from`.
pub open spec fn row_with_tag(tag: Seq<u8>, from: int) -> Option<int>
    decreases AREA_COUNT - from,
{
    if from >= AREA_COUNT || from < 0 {
        None
    } else if row_tag(from) == tag {
        Some(from)
    } else {
        row_with_tag(tag, from + 1)
    }
}

/// The bank stored in a given area, if the table knows that area.
pub fn spec_for_tag(tag: &[u8; 4]) -> (r: Option<AreaSpec>)
    ensures
        row_with_tag(tag@, 0) is None ==> r is None,
        row_with_tag(tag@, 0) matches Some(i) ==> r matches Some(a) && is_row(a, i),
{
    let mut i: usize = 0;
    while i < AREA_COUNT
        invariant
            i <= AREA_COUNT,
            row_with_tag(tag@, 0) == row_with_tag(tag@, i as int),
        decreases AREA_COUNT - i,
    {
        let a = area_at(i);
        if same_tag(&a.tag, tag) {
            return Some(a);
        }
        i = i + 1;
    }
    None
}

/// The tags row `i` holds records in: its own, then its companion's.
pub open spec fn row_paired(i: int) -> Seq<Seq<u8>> {
    if i == 1 {
        seq![row_tag(i), tag4('I', 'N', 'S', 'a')]
    } else {
        seq![row_tag(i)]
    }
}

/// Every area tag of rows `0..n`, paired ones included, in table order.
pub open spec fn paired_tags(n: int) -> Seq<Seq<u8>>
    decreases n,
{
    if n <= 0 {
        Seq::empty()
    } else {
        paired_tags(n - 1) + row_paired(n - 1)
    }
}

/// Every area tag that holds user records, including paired ones such as `INSa`.
pub fn dependency_tags() -> (r: Vec<[u8; 4]>)
    ensures
        r@.map_values(|t: [u8; 4]| t@) == paired_tags(AREA_COUNT as int),
{
    let mut out: Vec<[u8; 4]> = Vec::new();
    let mut i: usize = 0;
    while i < AREA_COUNT
        invariant
            i <= AREA_COUNT,
            out@.map_values(|t: [u8; 4]| t@) == paired_tags(i as int),
        decreases AREA_COUNT - i,
    {
        let a = area_at(i);
        let ghost before = out@;
        out.push(a.tag);
        match a.companion {
            Some(t) => {
                out.push(t);
            },
            None => {},
        }
        i = i + 1;
        assert(out@.map_values(|t: [u8; 4]| t@) =~= paired_tags(i as int));
    }
    out
}

/// A name field padded or cut to 16 bytes, then with each 4-byte word reversed if `swapped`.
pub open spec fn name_field(field: Seq<u8>, swapped: bool) -> Seq<u8> {
    let padded = Seq::new(
        NAME_LEN as nat,
        |i: int|
            if i < field.len() {
                field[i]
            } else {
                0x20u8
            },
    );
    if swapped {
        Seq::new(NAME_LEN as nat, |i: int| padded[(i / 4) * 4 + 3 - i % 4])
    } else {
        padded
    }
}

impl AreaSpec {
    /// The bank is addressable: its LSB pages are in order.
    pub open spec fn wf(&self) -> bool {
        self.lsb_first <= self.lsb_last
    }

    /// The areas indexed in lockstep with this bank: its own tag first, then its companion.
    pub fn paired(&self) -> (v: Vec<[u8; 4]>)
        ensures
            v@.len() == (if self.companion is Some {
                2int
            } else {
                1int
            }),
            v@[0] == self.tag,
            self.companion matches Some(t) ==> v@[1] == t,
    {
        let mut v = Vec::new();
        v.push(self.tag);
        if let Some(t) = self.companion {
            v.push(t);
        }
        v
    }

    /// The area tag as a string, for messages.
    pub fn tag_str(&self) -> (s: String)
        ensures
            s@ == utf8_lossy(self.tag@),
    {
        lossy_text(&self.tag)
    }

    /// Decode a record's 16-byte name field.
    pub fn decode_name(&self, field: &[u8]) -> (s: String)
        ensures
            s@ == field_text(name_field(field@, self.word_swapped)),
            all_ascii(name_field(field@, self.word_swapped)) ==> s@ == ascii_chars(
                name_field(field@, self.word_swapped).subrange(
                    0,
                    trimmed_len(name_field(field@, self.word_swapped)) as int,
                ),
            ),
    {
        let bytes = self.name_bytes(field);
        ascii_trim(&bytes)
    }

    /// Encode `name` into a record's 16-byte name field, space-padded.
    pub fn encode_name(&self, name: &str) -> (field: [u8; 16])
        ensures
            field@ == name_field(name.spec_bytes(), self.word_swapped),
    {
        let src = name.as_bytes();
        let n = if src.len() < NAME_LEN {
            src.len()
        } else {
            NAME_LEN
        };
        let mut field = [0x20u8; 16];
        let mut i: usize = 0;
        while i < n
            invariant
                n <= 16,
                n <= src@.len(),
                i <= n,
                field@.len() == 16,
                forall|j: int| 0 <= j < i ==> field@[j] == src@[j],
                forall|j: int| i <= j < 16 ==> field@[j] == 0x20u8,
            decreases n - i,
        {
            field[i] = src[i];
            i = i + 1;
        }
        let out = self.name_bytes(&field);
        assert(name_field(field@, self.word_swapped) =~= name_field(
            name.spec_bytes(),
            self.word_swapped,
        )) by {
            assert(name_field(field@, false) =~= name_field(name.spec_bytes(), false));
        }
        out
    }

    /// Apply the area's name byte order. `ACBa` stores each 4-byte word reversed, so the same
    /// transform both decodes and encodes it.
    fn name_bytes(&self, field: &[u8]) -> (out: [u8; 16])
        ensures
            out@ == name_field(field@, self.word_swapped),
    {
        let mut padded = [0x20u8; 16];
        let mut i: usize = 0;
        while i < NAME_LEN
            invariant
                i <= NAME_LEN,
                padded@.len() == 16,
                forall|j: int| 0 <= j < i ==> padded@[j] == name_field(field@, false)[j],
                forall|j: int| i <= j < 16 ==> padded@[j] == 0x20u8,
            decreases NAME_LEN - i,
        {
            if i < field.len() {
                padded[i] = field[i];
            }
            i = i + 1;
        }
        assert(padded@ =~= name_field(field@, false));
        if !self.word_swapped {
            return padded;
        }
        let mut out = [0x20u8; 16];
        let mut k: usize = 0;
        while k < NAME_LEN
            invariant
                k <= NAME_LEN,
                out@.len() == 16,
                padded@ == name_field(field@, false),
                forall|j: int|
                    0 <= j < k ==> out@[j] == padded@[(j / 4) * 4 + 3 - j % 4],
            decreases NAME_LEN - k,
        {
            out[k] = padded[(k / 4) * 4 + 3 - k % 4];
            k = k + 1;
        }
        assert(out@ =~= name_field(field@, true));
        out
    }

    pub open spec fn spec_capacity(&self) -> int {
        (self.lsb_last - self.lsb_first + 1) * PC_PER_PAGE
    }

    /// How many records this bank can address before it would collide with the next engine.
    pub fn capacity(&self) -> (n: usize)
        requires
            self.wf(),
        ensures
            n == self.spec_capacity(),
    {
        (self.lsb_last as usize - self.lsb_first as usize + 1) * PC_PER_PAGE
    }

    /// Encode a record index back into the `(LSB, PC)` a zone stores.
    pub fn encode(&self, index: usize) -> (r: Result<(u8, u8)>)
        requires
            self.wf(),
        ensures
            index >= self.spec_capacity() ==> r == Err::<(u8, u8), Error>(
                Error::TooManyRecords { tag: self.tag, maximum: self.spec_capacity() as usize },
            ),
            index < self.spec_capacity() ==> r == Ok::<(u8, u8), Error>(
                (
                    (self.lsb_first + index / PC_PER_PAGE) as u8,
                    (index % PC_PER_PAGE) as u8,
                ),
            ),
    {
        let capacity = self.capacity();
        if index >= capacity {
            return Err(Error::TooManyRecords { tag: self.tag, maximum: capacity });
        }
        Ok((self.lsb_first + (index / PC_PER_PAGE) as u8, (index % PC_PER_PAGE) as u8))
    }
}

/// Encoding a record index and resolving the address it gives lands on the same index.
pub proof fn law_encode_resolve_round_trip(i: int, index: int)
    requires
        0 <= i < AREA_COUNT,
        bank_row(row_msb(i), row_lsb_first(i)) == Some(i),
        0 <= index < (row_lsb_last(i) - row_lsb_first(i) + 1) * PC_PER_PAGE,
    ensures
        ({
            let lsb = (row_lsb_first(i) + index / PC_PER_PAGE as int) as u8;
            let pc = (index % PC_PER_PAGE as int) as u8;
            bank_row(row_msb(i), lsb) == Some(i) && record_index(row_msb(i), lsb, pc) == index
        }),
{
    let lsb = (row_lsb_first(i) + index / PC_PER_PAGE as int) as u8;
    assert(row_lsb_first(i) <= lsb <= row_lsb_last(i));
    reveal_with_fuel(first_row, 10);
}

} // verus!

verus! {

proof fn lemma_trimmed_padding(b: Seq<u8>, n: nat)
    requires
        b.len() == 0 || !is_pad(b.last()),
    ensures
        trimmed_len(b + Seq::new(n, |_i: int| 0x20u8)) == b.len(),
    decreases n,
{
    let s = b + Seq::new(n, |_i: int| 0x20u8);
    if n == 0 {
        assert(s =~= b);
        if b.len() > 0 {
            assert(s.last() == b.last());
        }
    } else {
        assert(s.drop_last() =~= b + Seq::new((n - 1) as nat, |_i: int| 0x20u8));
        lemma_trimmed_padding(b, (n - 1) as nat);
    }
}

/// An ASCII name of at most 16 characters, ending in neither a space nor a NUL, reads back
/// unchanged from the name field it is written to, whether or not the area swaps its words.
pub proof fn law_name_round_trip(name: &str, swapped: bool)
    requires
        vstd::string::is_ascii(name),
        name@.len() <= NAME_LEN,
        name@.len() == 0 || (name@.last() != ' ' && name@.last() != '\0'),
    ensures
        ({
            let f = name_field(name_field(name.spec_bytes(), swapped), swapped);
            all_ascii(f) && ascii_chars(f.subrange(0, trimmed_len(f) as int)) == name@
        }),
{
    broadcast use vstd::string::is_ascii_spec_bytes;
    let b = name.spec_bytes();
    assert(b =~= Seq::new(name@.len(), |i: int| name@[i] as u8));
    let padded = b + Seq::new((NAME_LEN - b.len()) as nat, |_i: int| 0x20u8);
    let once = name_field(b, swapped);
    let twice = name_field(once, swapped);
    assert forall|i: int| 0 <= i < b.len() implies b[i] < 128 by {
        assert(vstd::utf8::is_ascii_chars(name@));
    }
    assert forall|i: int| 0 <= i < NAME_LEN implies #[trigger] twice[i] == padded[i] by {
        if swapped {
            let k = (i / 4) * 4 + 3 - i % 4;
            assert(0 <= k < 16 && (k / 4) * 4 + 3 - k % 4 == i) by (nonlinear_arith)
                requires
                    0 <= i < 16,
                    k == (i / 4) * 4 + 3 - i % 4,
            ;
        }
    }
    assert(twice =~= padded);
    if b.len() > 0 {
        assert(b.last() == name@.last() as u8);
        assert(!is_pad(b.last()));
    }
    lemma_trimmed_padding(b, (NAME_LEN - b.len()) as nat);
    assert(twice.subrange(0, b.len() as int) =~= b);
    assert(ascii_chars(b) =~= name@);
}

} // verus!
