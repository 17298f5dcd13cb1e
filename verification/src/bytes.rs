//! Little-endian integers and four-byte tags inside byte buffers.

use vstd::prelude::*;

verus! {

/// The little-endian `u16` stored at `at`.
pub open spec fn le16(s: Seq<u8>, at: int) -> u16 {
    (s[at] as int + s[at + 1] as int * 256) as u16
}

/// The little-endian `u32` stored at `at`.
pub open spec fn le32(s: Seq<u8>, at: int) -> u32 {
    (s[at] as int + s[at + 1] as int * 256 + s[at + 2] as int * 65536 + s[at + 3] as int
        * 16777216) as u32
}

/// The two bytes of `v`, least significant first.
pub open spec fn u16_bytes(v: u16) -> Seq<u8> {
    seq![(v % 256) as u8, (v / 256) as u8]
}

/// The four bytes of `v`, least significant first.
pub open spec fn u32_bytes(v: u32) -> Seq<u8> {
    seq![(v % 256) as u8, ((v / 256) % 256) as u8, ((v / 65536) % 256) as u8, (v / 16777216) as u8]
}

/// `s` with `part` written over it from `at`.
pub open spec fn splice(s: Seq<u8>, at: int, part: Seq<u8>) -> Seq<u8> {
    s.subrange(0, at) + part + s.subrange(at + part.len(), s.len() as int)
}

/// Reading back the two little-endian bytes of a `u16` gives the number.
pub proof fn law_le16_round_trip(v: u16)
    ensures
        le16(u16_bytes(v), 0) == v,
{
}

/// Reading back the four little-endian bytes of a `u32` gives the number.
pub proof fn law_le32_round_trip(v: u32)
    ensures
        le32(u32_bytes(v), 0) == v,
{
}

/// Read the little-endian `u16` at `at`, or `None` when it does not fit.
pub fn read_u16(bytes: &[u8], at: usize) -> (r: Option<u16>)
    ensures
        r is Some <==> at + 2 <= bytes@.len(),
        r matches Some(v) ==> v == le16(bytes@, at as int),
{
    if at <= bytes.len() && bytes.len() - at >= 2 {
        Some(bytes[at] as u16 + (bytes[at + 1] as u16) * 256)
    } else {
        None
    }
}

/// Read the little-endian `u32` at `at`, or `None` when it does not fit.
pub fn read_u32(bytes: &[u8], at: usize) -> (r: Option<u32>)
    ensures
        r is Some <==> at + 4 <= bytes@.len(),
        r matches Some(v) ==> v == le32(bytes@, at as int),
{
    if at <= bytes.len() && bytes.len() - at >= 4 {
        Some(
            bytes[at] as u32 + (bytes[at + 1] as u32) * 256 + (bytes[at + 2] as u32) * 65536 + (
            bytes[at + 3] as u32) * 16777216,
        )
    } else {
        None
    }
}

/// Overwrite the two bytes at `at` with `v`, little-endian.
pub fn write_u16(bytes: &mut [u8], at: usize, v: u16)
    requires
        at + 2 <= old(bytes)@.len(),
    ensures
        final(bytes)@ == old(bytes)@.update(at as int, (v % 256) as u8).update(
            at + 1,
            (v / 256) as u8,
        ),
        final(bytes)@ == splice(old(bytes)@, at as int, u16_bytes(v)),
        le16(final(bytes)@, at as int) == v,
{
    let _len = bytes.len();
    bytes[at] = (v % 256) as u8;
    bytes[at + 1] = (v / 256) as u8;
    assert(bytes@ =~= splice(old(bytes)@, at as int, u16_bytes(v)));
}

/// Overwrite the four bytes at `at` with `v`, little-endian.
pub fn write_u32(bytes: &mut [u8], at: usize, v: u32)
    requires
        at + 4 <= old(bytes)@.len(),
    ensures
        final(bytes)@ == splice(old(bytes)@, at as int, u32_bytes(v)),
        le32(final(bytes)@, at as int) == v,
{
    let _len = bytes.len();
    bytes[at] = (v % 256) as u8;
    bytes[at + 1] = ((v / 256) % 256) as u8;
    bytes[at + 2] = ((v / 65536) % 256) as u8;
    bytes[at + 3] = (v / 16777216) as u8;
    assert(bytes@ =~= splice(old(bytes)@, at as int, u32_bytes(v)));
}

/// Append `v` as two little-endian bytes.
pub fn push_u16(out: &mut Vec<u8>, v: u16)
    ensures
        final(out)@ == old(out)@ + u16_bytes(v),
{
    out.push((v % 256) as u8);
    out.push((v / 256) as u8);
    assert(out@ =~= old(out)@ + u16_bytes(v));
}

/// Append `v` as four little-endian bytes.
pub fn push_u32(out: &mut Vec<u8>, v: u32)
    ensures
        final(out)@ == old(out)@ + u32_bytes(v),
{
    out.push((v % 256) as u8);
    out.push(((v / 256) % 256) as u8);
    out.push(((v / 65536) % 256) as u8);
    out.push((v / 16777216) as u8);
    assert(out@ =~= old(out)@ + u32_bytes(v));
}

/// Append every byte of `part`.
pub fn push_all(out: &mut Vec<u8>, part: &[u8])
    ensures
        final(out)@ == old(out)@ + part@,
{
    let mut i: usize = 0;
    while i < part.len()
        invariant
            i <= part@.len(),
            out@ == old(out)@ + part@.subrange(0, i as int),
        decreases part@.len() - i,
    {
        out.push(part[i]);
        i = i + 1;
        assert(out@ =~= old(out)@ + part@.subrange(0, i as int));
    }
    assert(part@.subrange(0, part@.len() as int) =~= part@);
}

/// Append `n` copies of `byte`.
pub fn push_repeat(out: &mut Vec<u8>, byte: u8, n: usize)
    ensures
        final(out)@ == old(out)@ + Seq::new(n as nat, |_i: int| byte),
{
    let mut i: usize = 0;
    while i < n
        invariant
            i <= n,
            out@ == old(out)@ + Seq::new(i as nat, |_i: int| byte),
        decreases n - i,
    {
        out.push(byte);
        i = i + 1;
        assert(out@ =~= old(out)@ + Seq::new(i as nat, |_i: int| byte));
    }
}

/// A copy of `bytes[start..end]`.
pub fn copy_range(bytes: &[u8], start: usize, end: usize) -> (r: Vec<u8>)
    requires
        start <= end <= bytes@.len(),
    ensures
        r@ == bytes@.subrange(start as int, end as int),
{
    let mut out: Vec<u8> = Vec::new();
    let mut i = start;
    while i < end
        invariant
            start <= i <= end <= bytes@.len(),
            out@ == bytes@.subrange(start as int, i as int),
        decreases end - i,
    {
        out.push(bytes[i]);
        i = i + 1;
        assert(out@ =~= bytes@.subrange(start as int, i as int));
    }
    out
}

/// The four-byte tag `a b c d`.
pub fn tag_of(a: u8, b: u8, c: u8, d: u8) -> (t: [u8; 4])
    ensures
        t@ == seq![a, b, c, d],
{
    let t = [a, b, c, d];
    assert(t@ =~= seq![a, b, c, d]);
    t
}

/// Whether two byte sequences are equal.
pub fn bytes_equal(a: &[u8], b: &[u8]) -> (r: bool)
    ensures
        r == (a@ == b@),
{
    if a.len() != b.len() {
        return false;
    }
    let mut i: usize = 0;
    while i < a.len()
        invariant
            i <= a@.len() == b@.len(),
            forall|j: int| 0 <= j < i ==> a@[j] == b@[j],
        decreases a@.len() - i,
    {
        if a[i] != b[i] {
            return false;
        }
        i = i + 1;
    }
    assert(a@ =~= b@);
    true
}

/// Whether two four-byte tags are equal.
pub fn same_tag(a: &[u8; 4], b: &[u8; 4]) -> (r: bool)
    ensures
        r == (a@ == b@),
{
    let r = a[0] == b[0] && a[1] == b[1] && a[2] == b[2] && a[3] == b[3];
    if r {
        assert(a@ =~= b@);
    }
    r
}

/// The tag spelled by four byte values.
pub open spec fn tag_seq(a: u8, b: u8, c: u8, d: u8) -> Seq<u8> {
    seq![a, b, c, d]
}

} // verus!
