//! A fixed-stride record table — the shape every named area shares.
//!
//! An area body opens with a header (`count`, `record_size`, `info_length`, reserved), then
//! `info_length - 16` bytes of per-record info words (one CRC-32 per record in an SVZ, none in an
//! SVD5), then `count` records of `record_size` bytes.

use vstd::prelude::*;

use crate::bytes::{le32, read_u32};
use crate::container::{Area, Raw, Svd};
use crate::container::svd::{first_area, fits};
use crate::{Error, Result};

verus! {

/// Size of the fixed header that opens every record area.
pub const HEADER_LEN: usize = 0x10;

/// A parsed record area, borrowing the area's bytes.
pub struct RecordTable<'a> {
    /// Four-character area tag, e.g. `PRFa`.
    pub tag: [u8; 4],
    /// Format/version stamp, e.g. `KY19`.
    pub format: [u8; 4],
    /// Absolute file offset of the area (its header).
    pub area_offset: usize,
    /// Record count declared in the header. May exceed what the area actually holds.
    pub declared_count: usize,
    /// Bytes per record.
    pub record_size: usize,
    /// Where the records start within the area: the declared `info_length` when it lies between
    /// the header and the end of the area, else right after the header.
    pub info_len: usize,
    /// The area bytes, header included.
    pub bytes: &'a [u8],
}

/// Where the records of an area body `s` start.
pub open spec fn data_start(s: Seq<u8>) -> nat {
    if s.len() >= 12 && HEADER_LEN <= le32(s, 8) <= s.len() {
        le32(s, 8) as nat
    } else {
        HEADER_LEN as nat
    }
}

/// Why an area body is not a record table, or `None` when it is one.
pub open spec fn table_error(tag: [u8; 4], s: Seq<u8>) -> Option<Error> {
    if s.len() < 4 {
        Some(Error::AreaTruncated { tag, at: 0 })
    } else if s.len() < 8 {
        Some(Error::AreaTruncated { tag, at: 4 })
    } else if le32(s, 4) == 0 {
        Some(Error::ZeroRecordSize { tag })
    } else {
        None
    }
}

/// How many whole records fit in the area body, never more than declared.
pub open spec fn whole_records(s: Seq<u8>) -> nat {
    let body = if s.len() >= data_start(s) {
        s.len() - data_start(s)
    } else {
        0
    };
    let fit = body / (le32(s, 4) as int);
    if (le32(s, 0) as int) < fit {
        le32(s, 0) as nat
    } else {
        fit as nat
    }
}

impl<'a> RecordTable<'a> {
    /// The area bytes the table reads.
    pub open spec fn body(&self) -> Seq<u8> {
        self.bytes@
    }

    /// The table describes `s`, the bytes of `area`.
    pub open spec fn reads(&self, area: Area, s: Seq<u8>) -> bool {
        &&& self.body() == s
        &&& self.tag == area.tag
        &&& self.format == area.format
        &&& self.area_offset == area.offset
        &&& self.declared_count == le32(s, 0)
        &&& self.record_size == le32(s, 4)
        &&& self.record_size > 0
        &&& self.info_len == data_start(s)
    }

    /// How many whole records the area holds.
    pub open spec fn spec_len(&self) -> nat {
        whole_records(self.body())
    }

    /// The bytes of record `i`.
    pub open spec fn spec_record(&self, i: int) -> Seq<u8> {
        self.body().subrange(
            self.info_len + i * self.record_size,
            self.info_len + (i + 1) * self.record_size,
        )
    }

    pub open spec fn wf(&self) -> bool {
        &&& self.record_size > 0
        &&& self.info_len == data_start(self.body())
        &&& self.declared_count == le32(self.body(), 0)
        &&& self.record_size == le32(self.body(), 4)
        &&& self.body().len() >= 8
        &&& self.body().len() <= usize::MAX
    }

    /// Parse an area's record table from its bytes.
    pub fn parse(area: &Area, bytes: &'a [u8]) -> (r: Result<Self>)
        ensures
            table_error(area.tag, bytes@) is None <==> r is Ok,
            r matches Ok(t) ==> t.reads(*area, bytes@) && t.wf(),
            r matches Err(e) ==> table_error(area.tag, bytes@) == Some(e),
    {
        let total = bytes.len();
        let count = match read_u32(bytes, 0) {
            Some(v) => v,
            None => {
                return Err(Error::AreaTruncated { tag: area.tag, at: 0 });
            },
        };
        let record_size = match read_u32(bytes, 4) {
            Some(v) => v,
            None => {
                return Err(Error::AreaTruncated { tag: area.tag, at: 4 });
            },
        };
        if record_size == 0 {
            return Err(Error::ZeroRecordSize { tag: area.tag });
        }
        let info_len = match read_u32(bytes, 8) {
            Some(v) if HEADER_LEN <= v as usize && v as usize <= total => v as usize,
            _ => HEADER_LEN,
        };
        Ok(
            RecordTable {
                tag: area.tag,
                format: area.format,
                area_offset: area.offset as usize,
                declared_count: count as usize,
                record_size: record_size as usize,
                info_len,
                bytes,
            },
        )
    }

    /// Parse the table for `tag`, if the file has that area.
    pub fn from_svd(raw: &'a Raw, svd: &Svd, tag: &[u8; 4]) -> (r: Result<Option<Self>>)
        ensures
            first_area(svd.areas@, tag@) is None ==> r == Ok::<Option<Self>, Error>(None),
            first_area(svd.areas@, tag@) matches Some(i) ==> {
                let area = svd.areas@[i];
                &&& !fits(area, raw@.len()) ==> r == Err::<Option<Self>, Error>(
                    Error::AreaBeyondFile {
                        tag: area.tag,
                        start: area.offset as usize,
                        end: (area.offset + area.size) as usize,
                        file_len: raw@.len() as usize,
                    },
                )
                &&& fits(area, raw@.len()) ==> {
                    let s = raw@.subrange(area.offset as int, area.offset + area.size);
                    &&& table_error(area.tag, s) is None ==> (r matches Ok(Some(t)) && t.reads(
                        area,
                        s,
                    ) && t.wf())
                    &&& table_error(area.tag, s) matches Some(e) ==> r == Err::<Option<Self>, Error>(
                        e,
                    )
                }
            },
    {
        let area = match svd.area(tag) {
            Some(a) => a,
            None => {
                return Ok(None);
            },
        };
        let bytes = svd.area_bytes(raw, area)?;
        let table = Self::parse(area, bytes)?;
        Ok(Some(table))
    }

    /// The header that opens the area (all of it when the area is shorter).
    pub fn header(&self) -> (h: &'a [u8])
        ensures
            h@ == self.body().subrange(
                0,
                if self.body().len() < HEADER_LEN {
                    self.body().len() as int
                } else {
                    HEADER_LEN as int
                },
            ),
    {
        let n = if self.bytes.len() < HEADER_LEN {
            self.bytes.len()
        } else {
            HEADER_LEN
        };
        vstd::slice::slice_subrange(self.bytes, 0, n)
    }

    /// How many whole records the area actually contains, never more than declared.
    pub fn len(&self) -> (n: usize)
        requires
            self.wf(),
        ensures
            n == self.spec_len(),
    {
        let body = if self.bytes.len() >= self.info_len {
            self.bytes.len() - self.info_len
        } else {
            0
        };
        let fit = body / self.record_size;
        if self.declared_count < fit {
            self.declared_count
        } else {
            fit
        }
    }

    /// Whether the area holds no records.
    pub fn is_empty(&self) -> (r: bool)
        requires
            self.wf(),
        ensures
            r == (self.spec_len() == 0),
    {
        self.len() == 0
    }

    /// The bytes of record `index`, or `None` past the last whole record.
    pub fn record(&self, index: usize) -> (r: Option<&'a [u8]>)
        requires
            self.wf(),
        ensures
            index >= self.spec_len() ==> r is None,
            index < self.spec_len() ==> (r matches Some(b) && b@ == self.spec_record(
                index as int,
            )),
            index < self.spec_len() ==> self.info_len + (index + 1) * self.record_size
                <= self.body().len(),
            r matches Some(b) ==> b@.len() == self.record_size,
    {
        let n = self.len();
        if index >= n {
            return None;
        }
        proof {
            lemma_record_fits(self.bytes@.len() as int, self.info_len as int, self.record_size as int, n as int, index as int);
        }
        let start = self.info_len + index * self.record_size;
        Some(vstd::slice::slice_subrange(self.bytes, start, start + self.record_size))
    }

    /// Every whole record, in storage order.
    pub fn records(&self) -> (v: Vec<&'a [u8]>)
        requires
            self.wf(),
        ensures
            v@.len() == self.spec_len(),
            forall|i: int| 0 <= i < v@.len() ==> (#[trigger] v@[i])@ == self.spec_record(i),
    {
        let n = self.len();
        let mut out: Vec<&'a [u8]> = Vec::new();
        let mut i: usize = 0;
        while i < n
            invariant
                self.wf(),
                n == self.spec_len(),
                i <= n,
                out@.len() == i,
                forall|j: int| 0 <= j < i ==> (#[trigger] out@[j])@ == self.spec_record(j),
            decreases n - i,
        {
            out.push(self.record(i).unwrap());
            i = i + 1;
        }
        out
    }

    /// Absolute file offset of record `index`, whether or not it is present.
    pub fn record_offset(&self, index: usize) -> (at: usize)
        requires
            self.area_offset + self.info_len + index * self.record_size <= usize::MAX,
        ensures
            at == self.area_offset + self.info_len + index * self.record_size,
    {
        self.area_offset + self.info_len + index * self.record_size
    }

    /// Bytes of per-record info between the header and the records, per declared record: `4`
    /// in an SVZ (one CRC-32 each), `0` in an SVD5.
    pub fn info_stride(&self) -> (n: usize)
        requires
            self.wf(),
        ensures
            n == (if self.declared_count == 0 {
                0
            } else {
                (self.info_len - HEADER_LEN) / self.declared_count as int
            }),
    {
        if self.declared_count == 0 {
            0
        } else {
            (self.info_len - HEADER_LEN) / self.declared_count
        }
    }

    /// The info word of record `index`, if the area stores one for it.
    pub fn record_info(&self, index: usize) -> (r: Option<&'a [u8]>)
        requires
            self.wf(),
        ensures
            ({
                let stride = if self.declared_count == 0 {
                    0
                } else {
                    (self.info_len - HEADER_LEN) / self.declared_count as int
                };
                &&& (stride == 0 || index >= self.declared_count) ==> r is None
                &&& (stride > 0 && index < self.declared_count) ==> (r matches Some(b) && b@
                    == self.body().subrange(
                    HEADER_LEN + index * stride,
                    HEADER_LEN + (index + 1) * stride,
                ) && HEADER_LEN + (index + 1) * stride <= self.info_len && 0 <= index * stride)
            }),
    {
        let stride = self.info_stride();
        if stride == 0 || index >= self.declared_count {
            return None;
        }
        proof {
            lemma_info_fits(self.info_len as int, self.declared_count as int, stride as int, index as int);
        }
        let start = HEADER_LEN + index * stride;
        Some(vstd::slice::slice_subrange(self.bytes, start, start + stride))
    }
}

pub proof fn lemma_record_fits(total: int, info_len: int, size: int, n: int, index: int)
    requires
        size > 0,
        0 <= index < n,
        info_len <= total,
        n <= (total - info_len) / size,
    ensures
        info_len + (index + 1) * size <= total,
        info_len + index * size + size == info_len + (index + 1) * size,
        0 <= index * size,
{
    assert(info_len + (index + 1) * size <= total) by (nonlinear_arith)
        requires
            size > 0,
            0 <= index < n,
            info_len <= total,
            n <= (total - info_len) / size,
    ;
    assert(index * size + size == (index + 1) * size) by (nonlinear_arith);
    assert(0 <= index * size) by (nonlinear_arith)
        requires
            0 <= index,
            size > 0,
    ;
}

proof fn lemma_info_fits(info_len: int, count: int, stride: int, index: int)
    requires
        count > 0,
        stride == (info_len - HEADER_LEN) / count,
        HEADER_LEN <= info_len,
        0 <= index < count,
    ensures
        HEADER_LEN + (index + 1) * stride <= info_len,
        HEADER_LEN + index * stride + stride == HEADER_LEN + (index + 1) * stride,
        0 <= index * stride,
{
    assert(HEADER_LEN + (index + 1) * stride <= info_len) by (nonlinear_arith)
        requires
            count > 0,
            stride == (info_len - HEADER_LEN) / count,
            HEADER_LEN <= info_len,
            0 <= index < count,
    ;
    assert(index * stride + stride == (index + 1) * stride) by (nonlinear_arith);
    assert(0 <= index * stride) by (nonlinear_arith)
        requires
            0 <= index,
            0 <= stride,
    ;
}

} // verus!
