//! The container envelope: which areas a file holds and where their bytes live.

use vstd::prelude::*;

use crate::bytes::{copy_range, le16, le32, read_u16, read_u32, same_tag};
use crate::container::Raw;
use crate::text::{ascii_trim, field_text};
use crate::{Error, Result};

verus! {

/// Which envelope a file uses. Both put their area table at `0x10`; they differ in the preamble.
#[derive(Debug, Clone, Copy, PartialEq, Eq)]
pub enum Kind {
    /// `SVD5` — scene banks and full backups. A u16 header length, then the magic at `0x02`.
    Svd,
    /// `SVZa` — tone exports. The magic leads at `0x00`, and byte `0x04` is the area count.
    Svz,
}

/// The ASCII bytes of a four-character magic.
pub open spec fn magic_of(kind: Kind) -> Seq<u8> {
    match kind {
        Kind::Svd => seq![0x53u8, 0x56, 0x44, 0x35],
        Kind::Svz => seq![0x53u8, 0x56, 0x5a, 0x61],
    }
}

impl Kind {
    /// The four-character magic that identifies this envelope.
    pub fn magic(self) -> (m: [u8; 4])
        ensures
            m@ == magic_of(self),
    {
        let m = match self {
            Kind::Svd => [0x53u8, 0x56, 0x44, 0x35],
            Kind::Svz => [0x53u8, 0x56, 0x5a, 0x61],
        };
        assert(m@ =~= magic_of(self));
        m
    }
}

/// Bytes before the area table. The same in both envelopes.
pub const PREAMBLE_LEN: usize = 0x10;

/// One entry in the area table: a tagged, located span of the file.
#[derive(Debug, Clone, Copy, PartialEq, Eq)]
pub struct Area {
    /// Four-character area kind, e.g. `PRFa` (Performances/Scenes) or `PATa` (Patches).
    pub tag: [u8; 4],
    /// Format/version stamp, constant within a file (`KY19` on FANTOM-6, `ZCOR` for ZEN-Core).
    pub format: [u8; 4],
    /// Absolute byte offset of the area within the file.
    pub offset: u32,
    /// Length of the area in bytes.
    pub size: u32,
}

/// Whether `a` is the table entry stored at `at` in `s`.
pub open spec fn is_entry(a: Area, s: Seq<u8>, at: int) -> bool {
    &&& a.tag@ == s.subrange(at, at + 4)
    &&& a.format@ == s.subrange(at + 4, at + 8)
    &&& a.offset == le32(s, at + 8)
    &&& a.size == le32(s, at + 12)
}

impl Area {
    /// Size of one area-table entry on disk.
    pub const LEN: usize = 16;

    /// Read the table entry at `at`.
    pub fn read(bytes: &[u8], at: usize) -> (a: Area)
        requires
            at + 16 <= bytes@.len(),
        ensures
            is_entry(a, bytes@, at as int),
    {
        let tag = [bytes[at], bytes[at + 1], bytes[at + 2], bytes[at + 3]];
        let format = [bytes[at + 4], bytes[at + 5], bytes[at + 6], bytes[at + 7]];
        let offset = read_u32(bytes, at + 8).unwrap();
        let size = read_u32(bytes, at + 12).unwrap();
        assert(tag@ =~= bytes@.subrange(at as int, at + 4));
        assert(format@ =~= bytes@.subrange(at + 4, at + 8));
        Area { tag, format, offset, size }
    }

    /// The area tag as a trimmed string, e.g. `"PRFa"`.
    pub fn tag_str(&self) -> (s: String)
        ensures
            s@ == field_text(self.tag@),
    {
        ascii_trim(&self.tag)
    }

    /// The format/version stamp as a trimmed string, e.g. `"KY19"`.
    pub fn format_str(&self) -> (s: String)
        ensures
            s@ == field_text(self.format@),
    {
        ascii_trim(&self.format)
    }

    /// The area's byte range as a `start..end` pair (the caller validates it against the file).
    pub fn range(&self) -> (r: std::ops::Range<usize>)
        requires
            self.offset + self.size <= usize::MAX,
        ensures
            r.start == self.offset,
            r.end == self.offset + self.size,
    {
        let start = self.offset as usize;
        start..start + self.size as usize
    }
}

/// A parsed container: the file preamble plus its table of memory areas.
#[derive(Debug, Clone, PartialEq, Eq)]
pub struct Svd {
    /// Which envelope this file uses.
    pub kind: Kind,
    /// One entry per memory area (Performances, Patches, System, …).
    pub areas: Vec<Area>,
}

/// Which envelope the preamble of `s` announces, if any.
pub open spec fn kind_of(s: Seq<u8>) -> Option<Kind> {
    if s.len() < PREAMBLE_LEN {
        None
    } else if s.subrange(0, 4) == magic_of(Kind::Svz) {
        Some(Kind::Svz)
    } else if s.subrange(2, 6) == magic_of(Kind::Svd) {
        Some(Kind::Svd)
    } else {
        None
    }
}

/// How many area-table entries the preamble of `s` announces.
pub open spec fn area_count(s: Seq<u8>) -> nat {
    match kind_of(s) {
        Some(Kind::Svz) => s[4] as nat,
        Some(Kind::Svd) => if le16(s, 0) >= 14 {
            ((le16(s, 0) - 14) / 16) as nat
        } else {
            0
        },
        None => 0,
    }
}

/// Why `s` is not a container, or `None` when its envelope parses.
pub open spec fn envelope_error(s: Seq<u8>) -> Option<Error> {
    if s.len() < PREAMBLE_LEN {
        Some(Error::ShortHeader)
    } else if kind_of(s) is None {
        Some(Error::NotAContainer { head: arbitrary() })
    } else if PREAMBLE_LEN + area_count(s) * 16 > s.len() {
        Some(Error::AreaTableBeyondFile { count: area_count(s) as usize })
    } else {
        None
    }
}

/// Whether `svd` is the envelope that `s` holds.
pub open spec fn parses_as(svd: Svd, s: Seq<u8>) -> bool {
    &&& envelope_error(s) is None
    &&& kind_of(s) == Some(svd.kind)
    &&& svd.areas@.len() == area_count(s)
    &&& forall|i: int|
        0 <= i < svd.areas@.len() ==> is_entry(#[trigger] svd.areas@[i], s, PREAMBLE_LEN + 16 * i)
}

/// The index of the first area tagged `tag` among `areas`.
pub open spec fn first_area(areas: Seq<Area>, tag: Seq<u8>) -> Option<int>
    decreases areas.len(),
{
    if areas.len() == 0 {
        None
    } else {
        match first_area(areas.drop_last(), tag) {
            Some(i) => Some(i),
            None => if areas.last().tag@ == tag {
                Some(areas.len() - 1)
            } else {
                None
            },
        }
    }
}

pub proof fn lemma_first_area(areas: Seq<Area>, tag: Seq<u8>)
    ensures
        first_area(areas, tag) matches Some(i) ==> 0 <= i < areas.len() && areas[i].tag@ == tag
            && forall|j: int| 0 <= j < i ==> areas[j].tag@ != tag,
        first_area(areas, tag) is None ==> forall|j: int|
            0 <= j < areas.len() ==> areas[j].tag@ != tag,
    decreases areas.len(),
{
    if areas.len() > 0 {
        lemma_first_area(areas.drop_last(), tag);
        assert(forall|j: int| 0 <= j < areas.len() - 1 ==> areas.drop_last()[j] == areas[j]);
    }
}

/// The tag of area-table entry `i` of the file `s`.
pub open spec fn entry_tag(s: Seq<u8>, i: int) -> Seq<u8> {
    s.subrange(PREAMBLE_LEN + 16 * i, PREAMBLE_LEN + 16 * i + 4)
}

/// The index of the first of the first `n` area-table entries of `s` tagged `tag`.
pub open spec fn first_entry(s: Seq<u8>, tag: Seq<u8>, n: int) -> Option<int>
    decreases n,
{
    if n <= 0 {
        None
    } else {
        match first_entry(s, tag, n - 1) {
            Some(i) => Some(i),
            None => if entry_tag(s, n - 1) == tag {
                Some(n - 1)
            } else {
                None
            },
        }
    }
}

/// Searching the parsed table is searching the file's table.
pub proof fn lemma_first_entry(svd: Svd, s: Seq<u8>, tag: Seq<u8>, k: int)
    requires
        parses_as(svd, s),
        0 <= k <= svd.areas@.len(),
    ensures
        first_area(svd.areas@.subrange(0, k), tag) == first_entry(s, tag, k),
    decreases k,
{
    if k > 0 {
        lemma_first_entry(svd, s, tag, k - 1);
        assert(svd.areas@.subrange(0, k).drop_last() =~= svd.areas@.subrange(0, k - 1));
        assert(is_entry(svd.areas@[k - 1], s, PREAMBLE_LEN + 16 * (k - 1)));
    }
}

/// Whether `area`'s range lies within a file of `len` bytes.
pub open spec fn fits(area: Area, len: nat) -> bool {
    area.offset + area.size <= len
}

impl Svd {
    /// Parse a container from raw file bytes, accepting either envelope.
    pub fn parse(raw: &Raw) -> (r: Result<Self>)
        ensures
            r matches Ok(svd) ==> parses_as(svd, raw@),
            r is Ok <==> envelope_error(raw@) is None,
            r matches Err(e) ==> match envelope_error(raw@) {
                Some(Error::NotAContainer { .. }) => e matches Error::NotAContainer { head } && head@
                    == raw@.subrange(0, 6),
                Some(other) => e == other,
                None => false,
            },
    {
        let bytes = raw.bytes();
        if bytes.len() < PREAMBLE_LEN {
            return Err(Error::ShortHeader);
        }
        let svz = Kind::Svz.magic();
        let svd = Kind::Svd.magic();
        let lead = [bytes[0], bytes[1], bytes[2], bytes[3]];
        let at2 = [bytes[2], bytes[3], bytes[4], bytes[5]];
        assert(lead@ =~= bytes@.subrange(0, 4));
        assert(at2@ =~= bytes@.subrange(2, 6));
        let (kind, count) = if same_tag(&lead, &svz) {
            (Kind::Svz, bytes[4] as usize)
        } else if same_tag(&at2, &svd) {
            let header_size = read_u16(bytes, 0).unwrap() as usize;
            let count = if header_size >= 14 {
                (header_size - 14) / 16
            } else {
                0
            };
            (Kind::Svd, count)
        } else {
            return Err(Error::NotAContainer { head: copy_range(bytes, 0, 6) });
        };
        if count > (bytes.len() - PREAMBLE_LEN) / 16 {
            assert(PREAMBLE_LEN + count * 16 > bytes@.len()) by (nonlinear_arith)
                requires
                    count > (bytes@.len() - PREAMBLE_LEN) / 16,
                    bytes@.len() >= PREAMBLE_LEN,
            ;
            return Err(Error::AreaTableBeyondFile { count });
        }
        assert(PREAMBLE_LEN + count * 16 <= bytes@.len()) by (nonlinear_arith)
            requires
                count <= (bytes@.len() - PREAMBLE_LEN) / 16,
                bytes@.len() >= PREAMBLE_LEN,
        ;
        let mut areas: Vec<Area> = Vec::new();
        let total = bytes.len();
        let mut i: usize = 0;
        while i < count
            invariant
                total == bytes@.len(),
                i <= count,
                PREAMBLE_LEN + count * 16 <= bytes@.len(),
                bytes@ == raw@,
                areas@.len() == i,
                forall|j: int|
                    0 <= j < i ==> is_entry(#[trigger] areas@[j], bytes@, PREAMBLE_LEN + 16 * j),
            decreases count - i,
        {
            assert(PREAMBLE_LEN + 16 * i + 16 <= bytes@.len()) by (nonlinear_arith)
                requires
                    i < count,
                    PREAMBLE_LEN + count * 16 <= bytes@.len(),
            ;
            areas.push(Area::read(bytes, PREAMBLE_LEN + 16 * i));
            i = i + 1;
        }
        Ok(Svd { kind, areas })
    }

    /// The bytes before the area table, carried verbatim when rebuilding a file.
    pub fn preamble<'a>(&self, raw: &'a Raw) -> (r: Result<&'a [u8]>)
        ensures
            raw@.len() < PREAMBLE_LEN ==> r == Err::<&[u8], Error>(Error::ShortHeader),
            raw@.len() >= PREAMBLE_LEN ==> (r matches Ok(b) && b@ == raw@.subrange(
                0,
                PREAMBLE_LEN as int,
            )),
    {
        let bytes = raw.bytes();
        if bytes.len() < PREAMBLE_LEN {
            return Err(Error::ShortHeader);
        }
        Ok(vstd::slice::slice_subrange(bytes, 0, PREAMBLE_LEN))
    }

    /// Find the first area with the given four-character tag.
    pub fn area(&self, tag: &[u8; 4]) -> (r: Option<&Area>)
        ensures
            first_area(self.areas@, tag@) is None ==> r is None,
            first_area(self.areas@, tag@) matches Some(i) ==> r matches Some(a) && *a
                == self.areas@[i],
    {
        proof {
            lemma_first_area(self.areas@, tag@);
        }
        let mut i: usize = 0;
        while i < self.areas.len()
            invariant
                i <= self.areas@.len(),
                forall|j: int| 0 <= j < i ==> self.areas@[j].tag@ != tag@,
            decreases self.areas@.len() - i,
        {
            if same_tag(&self.areas[i].tag, tag) {
                proof {
                    assert(first_area(self.areas@, tag@) == Some(i as int)) by {
                        lemma_first_area(self.areas@, tag@);
                        if let Some(k) = first_area(self.areas@, tag@) {
                            assert(k == i);
                        }
                    }
                }
                return Some(&self.areas[i]);
            }
            i = i + 1;
        }
        None
    }

    /// Borrow the bytes of `area` out of `raw`, validating the range lies within the file.
    pub fn area_bytes<'a>(&self, raw: &'a Raw, area: &Area) -> (r: Result<&'a [u8]>)
        ensures
            fits(*area, raw@.len()) ==> (r matches Ok(b) && b@ == raw@.subrange(
                area.offset as int,
                area.offset + area.size,
            )),
            !fits(*area, raw@.len()) ==> r == Err::<&[u8], Error>(
                Error::AreaBeyondFile {
                    tag: area.tag,
                    start: area.offset as usize,
                    end: (area.offset + area.size) as usize,
                    file_len: raw@.len() as usize,
                },
            ),
    {
        let bytes = raw.bytes();
        let start = area.offset as usize;
        let end64 = area.offset as u64 + area.size as u64;
        if end64 > bytes.len() as u64 {
            return Err(
                Error::AreaBeyondFile {
                    tag: area.tag,
                    start,
                    end: end64 as usize,
                    file_len: bytes.len(),
                },
            );
        }
        let end = end64 as usize;
        Ok(vstd::slice::slice_subrange(bytes, start, end))
    }
}

} // verus!
