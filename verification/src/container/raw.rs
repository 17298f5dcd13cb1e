//! A Fantom file loaded verbatim into memory, with generic inspection helpers.

use vstd::prelude::*;
use vstd::string::StringSliceAdditionalSpecFns;

use crate::text::{
    all_ascii, ascii_chars, hex2, hex_digit, lossy_text, push_char, push_hex2, push_str, shown,
    shown_char, utf8_lossy,
};

verus! {

/// A Fantom file loaded verbatim into memory.
///
/// This is the reverse-engineering microscope: it makes no assumptions about the layout, so it
/// works on any `.svd` / `.svz` / `.sdz` blob.
#[derive(Debug, Clone)]
pub struct Raw {
    bytes: Vec<u8>,
}

impl View for Raw {
    type V = Seq<u8>;

    closed spec fn view(&self) -> Seq<u8> {
        self.bytes@
    }
}

/// Whether a byte is an ASCII graphic character or a space.
pub open spec fn is_magic_byte(b: u8) -> bool {
    0x20 <= b <= 0x7e
}

/// `n` in lowercase hexadecimal.
pub open spec fn hex(n: nat) -> Seq<char>
    decreases n,
{
    if n < 16 {
        seq![hex_digit(n)]
    } else {
        hex(n / 16).push(hex_digit(n % 16))
    }
}

/// `n` in lowercase hexadecimal, zero-padded to at least `width` digits.
pub open spec fn hex_padded(n: nat, width: nat) -> Seq<char> {
    let d = hex(n);
    if d.len() >= width {
        d
    } else {
        Seq::new((width - d.len()) as nat, |_i: int| '0') + d
    }
}

/// Column `i` of a dump line's hex block for the bytes `row`.
pub open spec fn hex_cell(row: Seq<u8>, i: int) -> Seq<char> {
    (if i < row.len() {
        hex2(row[i]).push(' ')
    } else {
        seq![' ', ' ', ' ']
    }) + (if i == 7 {
        seq![' ']
    } else {
        Seq::empty()
    })
}

/// Columns `0..n` of a dump line's hex block.
pub open spec fn hex_cells(row: Seq<u8>, n: int) -> Seq<char>
    decreases n,
{
    if n <= 0 {
        Seq::empty()
    } else {
        hex_cells(row, n - 1) + hex_cell(row, n - 1)
    }
}

/// The bytes of `row` as the ASCII gutter shows them.
pub open spec fn gutter(row: Seq<u8>) -> Seq<char> {
    Seq::new(row.len(), |i: int| shown(row[i]))
}

/// One `hexdump -C` line: address, sixteen hex columns, and the ASCII gutter.
pub open spec fn dump_line(addr: nat, row: Seq<u8>) -> Seq<char> {
    hex_padded(addr, 8) + seq![' ', ' '] + hex_cells(row, 16) + seq![' ', '|'] + gutter(row)
        + seq!['|', '\n']
}

/// The clamped range a dump of `len` bytes from `offset` covers.
pub open spec fn dump_range(total: nat, offset: nat, len: nat) -> (nat, nat) {
    let start = if offset < total {
        offset
    } else {
        total
    };
    let end = if start + len < total {
        start + len
    } else {
        total
    };
    (start, end)
}

fn push_hex(s: &mut String, n: usize)
    ensures
        final(s)@ == old(s)@ + hex(n as nat),
    decreases n,
{
    if n >= 16 {
        push_hex(s, n / 16);
    }
    let d = (n % 16) as u8;
    let c: char = if d < 10 {
        (48 + d) as char
    } else {
        (87 + d) as char
    };
    push_char(s, c);
    assert(s@ =~= old(s)@ + hex(n as nat));
}

pub(crate) fn push_hex_padded(s: &mut String, n: usize, width: usize)
    ensures
        final(s)@ == old(s)@ + hex_padded(n as nat, width as nat),
{
    let mut digits = String::new();
    push_hex(&mut digits, n);
    assert(digits@ =~= hex(n as nat));
    let len = digits.unicode_len();
    let mut pad: usize = 0;
    if len < width {
        pad = width - len;
    }
    let mut i: usize = 0;
    while i < pad
        invariant
            i <= pad,
            s@ == old(s)@ + Seq::new(i as nat, |_i: int| '0'),
        decreases pad - i,
    {
        push_char(s, '0');
        i = i + 1;
        assert(s@ =~= old(s)@ + Seq::new(i as nat, |_i: int| '0'));
    }
    push_str(s, digits.as_str());
    assert(s@ =~= old(s)@ + hex_padded(n as nat, width as nat));
}

/// The dump of `rest`, whose first byte sits at file offset `addr`, sixteen bytes a line.
pub open spec fn dump_from(rest: Seq<u8>, addr: nat) -> Seq<char>
    decreases rest.len(),
{
    if rest.len() == 0 {
        Seq::empty()
    } else {
        let k: int = if rest.len() < 16 {
            rest.len() as int
        } else {
            16
        };
        dump_line(addr, rest.subrange(0, k)) + dump_from(rest.subrange(k, rest.len() as int), addr + k as nat)
    }
}

fn push_dump_line(out: &mut String, addr: usize, row: &[u8])
    requires
        row@.len() <= 16,
    ensures
        final(out)@ == old(out)@ + dump_line(addr as nat, row@),
{
    push_hex_padded(out, addr, 8);
    push_char(out, ' ');
    push_char(out, ' ');
    let ghost cells_start = out@;
    let mut i: usize = 0;
    while i < 16
        invariant
            i <= 16,
            row@.len() <= 16,
            out@ == cells_start + hex_cells(row@, i as int),
        decreases 16 - i,
    {
        if i < row.len() {
            push_hex2(out, row[i]);
            push_char(out, ' ');
        } else {
            push_char(out, ' ');
            push_char(out, ' ');
            push_char(out, ' ');
        }
        if i == 7 {
            push_char(out, ' ');
        }
        i = i + 1;
        assert(out@ =~= cells_start + hex_cells(row@, i as int));
    }
    push_char(out, ' ');
    push_char(out, '|');
    let ghost gutter_start = out@;
    let mut k: usize = 0;
    while k < row.len()
        invariant
            k <= row@.len(),
            out@ == gutter_start + gutter(row@.subrange(0, k as int)),
        decreases row@.len() - k,
    {
        push_char(out, shown_char(row[k]));
        k = k + 1;
        assert(out@ =~= gutter_start + gutter(row@.subrange(0, k as int)));
    }
    assert(row@.subrange(0, row@.len() as int) =~= row@);
    push_char(out, '|');
    push_char(out, '\n');
    assert(out@ =~= old(out)@ + dump_line(addr as nat, row@));
}

impl Raw {
    /// Wrap already-loaded bytes.
    pub fn from_bytes(bytes: Vec<u8>) -> (r: Self)
        ensures
            r@ == bytes@,
    {
        Raw { bytes }
    }

    /// The raw file contents.
    pub fn bytes(&self) -> (b: &[u8])
        ensures
            b@ == self@,
    {
        self.bytes.as_slice()
    }

    /// Total length in bytes.
    pub fn len(&self) -> (n: usize)
        ensures
            n == self@.len(),
    {
        self.bytes.len()
    }

    /// Whether the file is empty.
    pub fn is_empty(&self) -> (r: bool)
        ensures
            r == (self@.len() == 0),
    {
        self.bytes.len() == 0
    }

    /// The leading ASCII magic, if the first `n` bytes are printable — Roland containers tend to
    /// start with an identifier such as `SVD ` or `PSVD`. `None` when the file is shorter or a
    /// byte is not printable.
    pub fn ascii_magic(&self, n: usize) -> (r: Option<String>)
        ensures
            r is Some <==> n <= self@.len() && forall|i: int|
                0 <= i < n ==> is_magic_byte(#[trigger] self@[i]),
            r matches Some(s) ==> s@ == ascii_chars(self@.subrange(0, n as int)),
    {
        if n > self.bytes.len() {
            return None;
        }
        let mut i: usize = 0;
        while i < n
            invariant
                n <= self@.len(),
                i <= n,
                forall|j: int| 0 <= j < i ==> is_magic_byte(#[trigger] self@[j]),
            decreases n - i,
        {
            let b = self.bytes[i];
            if !(0x20 <= b && b <= 0x7e) {
                return None;
            }
            i = i + 1;
        }
        let head = vstd::slice::slice_subrange(self.bytes.as_slice(), 0, n);
        assert(all_ascii(head@));
        Some(lossy_text(head))
    }

    /// A classic `hexdump -C` style rendering of a byte range, for eyeballing structure.
    ///
    /// `offset` and `len` are clamped to the file bounds. Each line shows 16 bytes as hex plus an
    /// ASCII gutter.
    pub fn hexdump(&self, offset: usize, len: usize) -> (out: String)
        ensures
            ({
                let (start, end) = dump_range(self@.len(), offset as nat, len as nat);
                out@ == dump_from(self@.subrange(start as int, end as int), start)
            }),
    {
        let total = self.bytes.len();
        let start = if offset < total {
            offset
        } else {
            total
        };
        let end = if len < total - start {
            start + len
        } else {
            total
        };
        let slice = vstd::slice::slice_subrange(self.bytes.as_slice(), start, end);
        let n = slice.len();
        let mut out = String::new();
        let mut lo: usize = 0;
        assert(slice@.subrange(0, n as int) =~= slice@);
        while lo < n
            invariant
                lo <= n == slice@.len(),
                start + n <= total,
                out@ + dump_from(slice@.subrange(lo as int, n as int), (start + lo) as nat)
                    == dump_from(slice@, start as nat),
            decreases n - lo,
        {
            let k = if n - lo < 16 {
                n - lo
            } else {
                16
            };
            let row = vstd::slice::slice_subrange(slice, lo, lo + k);
            let ghost rest = slice@.subrange(lo as int, n as int);
            assert(rest.subrange(0, k as int) =~= row@);
            assert(rest.subrange(k as int, rest.len() as int) =~= slice@.subrange(
                (lo + k) as int,
                n as int,
            ));
            push_dump_line(&mut out, start + lo, row);
            lo = lo + k;
        }
        assert(slice@.subrange(n as int, n as int) =~= Seq::<u8>::empty());
        out
    }

    /// Overwrite the bytes at `at` with `part`.
    pub fn patch_bytes(&mut self, at: usize, part: &[u8])
        requires
            at + part@.len() <= old(self)@.len(),
        ensures
            final(self)@ == crate::bytes::splice(old(self)@, at as int, part@),
    {
        let mut i: usize = 0;
        while i < part.len()
            invariant
                i <= part@.len(),
                at + part@.len() <= old(self)@.len(),
                self@.len() == old(self)@.len(),
                self.bytes@.len() == self@.len(),
                forall|j: int| 0 <= j < at ==> self@[j] == old(self)@[j],
                forall|j: int| at + i <= j < self@.len() ==> self@[j] == old(self)@[j],
                forall|j: int| at <= j < at + i ==> self@[j] == part@[j - at],
            decreases part@.len() - i,
        {
            let total = self.bytes.len();
            assert(at + i < total);
            self.bytes.set(at + i, part[i]);
            i = i + 1;
        }
        assert(self@ =~= crate::bytes::splice(old(self)@, at as int, part@));
    }

    /// Overwrite `len` bytes at `at` with `text`, space-padded or cut to fit.
    pub fn patch_ascii(&mut self, at: usize, len: usize, text: &str)
        requires
            at + len <= old(self)@.len(),
        ensures
            final(self)@ == old(self)@.subrange(0, at as int) + Seq::new(
                len as nat,
                |i: int|
                    if i < text.spec_bytes().len() {
                        text.spec_bytes()[i]
                    } else {
                        0x20u8
                    },
            ) + old(self)@.subrange(at + len, old(self)@.len() as int),
    {
        let src = text.as_bytes();
        let total = self.bytes.len();
        let mut i: usize = 0;
        while i < len
            invariant
                total == self@.len(),
                at + len <= self@.len(),
                self@.len() == old(self)@.len(),
                i <= len,
                src@ == text.spec_bytes(),
                forall|j: int| 0 <= j < at ==> self@[j] == old(self)@[j],
                forall|j: int| at + len <= j < self@.len() ==> self@[j] == old(self)@[j],
                forall|j: int|
                    at <= j < at + i ==> self@[j] == (if j - at < src@.len() {
                        src@[j - at]
                    } else {
                        0x20u8
                    }),
            decreases len - i,
        {
            let b = if i < src.len() {
                src[i]
            } else {
                0x20u8
            };
            self.bytes.set(at + i, b);
            i = i + 1;
        }
        assert(self@ =~= old(self)@.subrange(0, at as int) + Seq::new(
            len as nat,
            |i: int|
                if i < text.spec_bytes().len() {
                    text.spec_bytes()[i]
                } else {
                    0x20u8
                },
        ) + old(self)@.subrange(at + len, old(self)@.len() as int));
    }

    /// Take the bytes out.
    pub fn into_bytes(self) -> (b: Vec<u8>)
        ensures
            b@ == self@,
    {
        self.bytes
    }
}

} // verus!
