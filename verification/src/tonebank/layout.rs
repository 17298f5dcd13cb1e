//! Laying out the areas of a rebuilt tone bank, and the bank itself.

use vstd::prelude::*;

use super::load::{pieces_view, waves_view, AreaOut, LoadedArea, LoadedView, Wave, Waveform};
use crate::bytes::copy_range;
use crate::container::svd::PREAMBLE_LEN;
use crate::bytes::{push_all, push_u32, u32_bytes};
use crate::checksum::{crc32, spec_crc32};
use crate::container::records::HEADER_LEN;
use crate::container::Raw;
use crate::repackage::rebuild::{bodies, concat, table, Piece};
use crate::verify::{checks_clean, vouch, vouched};
use crate::{Error, Result};

verus! {

/// The info word a rebuilt record carries: its CRC-32 where the area keeps four-byte words,
/// else the word it had.
pub open spec fn word_for(stride: nat, record: Seq<u8>, info: Seq<u8>) -> Seq<u8> {
    if stride == 4 {
        u32_bytes(spec_crc32(record))
    } else {
        info
    }
}

/// The info words of `records`, end to end.
pub open spec fn words(stride: nat, records: Seq<Seq<u8>>, infos: Seq<Seq<u8>>) -> Seq<u8>
    decreases records.len(),
{
    if records.len() == 0 {
        Seq::empty()
    } else {
        words(stride, records.drop_last(), infos) + word_for(
            stride,
            records.last(),
            infos[records.len() - 1],
        )
    }
}

/// A body for area `l` holding `records` with info words `infos`: the header with its count,
/// record size and info length rewritten, the info words (checksums recomputed), then the
/// records.
pub open spec fn area_of(l: LoadedView, records: Seq<Seq<u8>>, infos: Seq<Seq<u8>>) -> Seq<u8> {
    let n = records.len() as int;
    u32_bytes(n as u32) + u32_bytes(l.size as u32) + u32_bytes((HEADER_LEN + n * l.stride) as u32)
        + l.header.subrange(12, 16) + words(l.stride, records, infos) + concat(records)
}

impl LoadedArea {
    /// Lay out a body from records and their info words, refreshing any checksum.
    pub fn assemble(&self, records: &Vec<Vec<u8>>, info: &Vec<Vec<u8>>) -> (body: Vec<u8>)
        requires
            info@.len() == records@.len(),
        ensures
            body@ == area_of(
                self@,
                records@.map_values(|r: Vec<u8>| r@),
                info@.map_values(|r: Vec<u8>| r@),
            ),
    {
        let ghost rs = records@.map_values(|r: Vec<u8>| r@);
        let ghost is = info@.map_values(|r: Vec<u8>| r@);
        let n = records.len();
        let nn = n as u128;
        let st = self.info_stride as u128;
        assert(nn * st <= 0xffff_ffff_ffff_ffff_u128 * 0xffff_ffff_ffff_ffff_u128) by (nonlinear_arith)
            requires
                nn <= 0xffff_ffff_ffff_ffff_u128,
                st <= 0xffff_ffff_ffff_ffff_u128,
        ;
        let info_len: u128 = 16 + nn * st;
        let mut body: Vec<u8> = Vec::new();
        push_u32(&mut body, n as u32);
        push_u32(&mut body, self.record_size as u32);
        push_u32(&mut body, info_len as u32);
        push_all(&mut body, vstd::slice::slice_subrange(self.header.as_slice(), 12, 16));
        let ghost head = body@;
        let mut k: usize = 0;
        while k < n
            invariant
                k <= n == records@.len() == info@.len(),
                rs == records@.map_values(|r: Vec<u8>| r@),
                is == info@.map_values(|r: Vec<u8>| r@),
                body@ == head + words(self.info_stride as nat, rs.subrange(0, k as int), is),
            decreases n - k,
        {
            assert(rs.subrange(0, k + 1).drop_last() =~= rs.subrange(0, k as int));
            if self.info_stride == 4 {
                push_u32(&mut body, crc32(records[k].as_slice()));
            } else {
                push_all(&mut body, info[k].as_slice());
            }
            k = k + 1;
            assert(body@ =~= head + words(self.info_stride as nat, rs.subrange(0, k as int), is));
        }
        assert(rs.subrange(0, k as int) =~= rs);
        let ghost mid = body@;
        let mut i: usize = 0;
        while i < n
            invariant
                i <= n == records@.len(),
                rs == records@.map_values(|r: Vec<u8>| r@),
                body@ == mid + concat(rs.subrange(0, i as int)),
            decreases n - i,
        {
            assert(rs.subrange(0, i + 1).drop_last() =~= rs.subrange(0, i as int));
            push_all(&mut body, records[i].as_slice());
            i = i + 1;
            assert(body@ =~= mid + concat(rs.subrange(0, i as int)));
        }
        assert(rs.subrange(0, i as int) =~= rs);
        body
    }
}


/// The audio of `ws`, end to end.
pub open spec fn wave_bodies(ws: Seq<Wave>) -> Seq<u8>
    decreases ws.len(),
{
    if ws.len() == 0 {
        Seq::empty()
    } else {
        wave_bodies(ws.drop_last()) + ws.last().2
    }
}

/// The directory of `ws`, their sections laid out from `start`.
pub open spec fn directory(ws: Seq<Wave>, start: int) -> Seq<u8>
    decreases ws.len(),
{
    if ws.len() == 0 {
        Seq::empty()
    } else {
        let w = ws.last();
        directory(ws.drop_last(), start) + u32_bytes(w.0) + u32_bytes(
            (start + wave_bodies(ws.drop_last()).len()) as u32,
        ) + u32_bytes(w.2.len() as u32) + u32_bytes(w.1)
    }
}

/// A `USDa` holding `ws`: a header, one directory entry per section (its slot, where it starts,
/// its length and its word), then the sections back to back.
pub open spec fn wave_area(ws: Seq<Wave>) -> Seq<u8> {
    let info_len = HEADER_LEN + 16 * ws.len();
    u32_bytes(ws.len() as u32) + u32_bytes(0) + u32_bytes(info_len as u32) + u32_bytes(0)
        + directory(ws, info_len as int) + wave_bodies(ws)
}

/// Lay out a `USDa` holding `sections`, each with the slot and word it carries.
pub fn build_waveform_area(sections: &Vec<Waveform>) -> (body: Vec<u8>)
    ensures
        body@ == wave_area(waves_view(sections@)),
{
    let ghost ws = waves_view(sections@);
    let n = sections.len();
    let mut data: Vec<u8> = Vec::new();
    let mut starts: Vec<usize> = Vec::new();
    let mut k: usize = 0;
    while k < n
        invariant
            k <= n == sections@.len(),
            ws == waves_view(sections@),
            data@ == wave_bodies(ws.subrange(0, k as int)),
            starts@.len() == k,
            forall|j: int| 0 <= j < k ==> starts@[j] == wave_bodies(#[trigger] ws.subrange(0, j)).len(),
        decreases n - k,
    {
        assert(ws.subrange(0, k + 1).drop_last() =~= ws.subrange(0, k as int));
        starts.push(data.len());
        push_all(&mut data, sections[k].bytes.as_slice());
        k = k + 1;
        assert(data@ =~= wave_bodies(ws.subrange(0, k as int)));
    }
    let info_len: u128 = 16 + 16 * n as u128;
    let mut body: Vec<u8> = Vec::new();
    push_u32(&mut body, n as u32);
    push_u32(&mut body, 0);
    push_u32(&mut body, info_len as u32);
    push_u32(&mut body, 0);
    let ghost head = body@;
    let mut i: usize = 0;
    while i < n
        invariant
            i <= n == sections@.len(),
            ws == waves_view(sections@),
            info_len == 16 + 16 * n,
            starts@.len() == n,
            forall|j: int| 0 <= j < n ==> starts@[j] == wave_bodies(#[trigger] ws.subrange(0, j)).len(),
            body@ == head + directory(ws.subrange(0, i as int), info_len as int),
        decreases n - i,
    {
        assert(ws.subrange(0, i + 1).drop_last() =~= ws.subrange(0, i as int));
        let w = &sections[i];
        let offset: u128 = info_len + starts[i] as u128;
        push_u32(&mut body, w.slot);
        push_u32(&mut body, offset as u32);
        push_u32(&mut body, w.bytes.len() as u32);
        push_u32(&mut body, w.word);
        i = i + 1;
        assert(body@ =~= head + directory(ws.subrange(0, i as int), info_len as int));
    }
    assert(ws.subrange(0, n as int) =~= ws);
    push_all(&mut body, data.as_slice());
    body
}

/// Where tag `t` first occurs in `order`, or past its end when it does not.
pub open spec fn rank(order: Seq<[u8; 4]>, t: Seq<u8>) -> int
    decreases order.len(),
{
    if order.len() == 0 {
        0
    } else if rank(order.drop_last(), t) < order.len() - 1 {
        rank(order.drop_last(), t)
    } else if order.last()@ == t {
        order.len() - 1
    } else {
        order.len() as int
    }
}

/// The pieces among `ps` of rank `r`, in order.
pub open spec fn bucket(ps: Seq<Piece>, order: Seq<[u8; 4]>, r: int) -> Seq<Piece>
    decreases ps.len(),
{
    if ps.len() == 0 {
        Seq::empty()
    } else if rank(order, ps.last().0) == r {
        bucket(ps.drop_last(), order, r).push(ps.last())
    } else {
        bucket(ps.drop_last(), order, r)
    }
}

/// The pieces of ranks `0..r`, rank by rank: a stable sort of `ps` by where their tags come in
/// `order`, those it does not list last.
pub open spec fn ranked(ps: Seq<Piece>, order: Seq<[u8; 4]>, r: int) -> Seq<Piece>
    decreases r,
{
    if r <= 0 {
        Seq::empty()
    } else {
        ranked(ps, order, r - 1) + bucket(ps, order, r - 1)
    }
}

/// An SVZ holding `ps`: the preamble with its area count rewritten, the area table, the bodies.
pub open spec fn svz_bytes(pre: Seq<u8>, ps: Seq<Piece>) -> Seq<u8> {
    pre.update(4, ps.len() as u8) + table(ps, PREAMBLE_LEN + 16 * ps.len()) + bodies(ps)
}

/// Whether `r` is what writing an SVZ of `ps` in the area order `order` over preamble `pre`
/// gives: refused past 255 areas; otherwise the bytes, exactly when they check clean.
pub open spec fn svz_outcome(r: Result<Raw>, pre: Seq<u8>, order: Seq<[u8; 4]>, ps: Seq<Piece>) -> bool {
    let sorted = ranked(ps, order, order.len() + 1int);
    if sorted.len() > 255 {
        r == Err::<Raw, Error>(Error::TooManyAreasSvz)
    } else {
        let bytes = svz_bytes(pre, sorted);
        vouched(r, bytes) && (r matches Ok(o) ==> o@ == bytes && checks_clean(bytes)) && (r is Err
            ==> !checks_clean(bytes))
    }
}

fn rank_of(order: &Vec<[u8; 4]>, tag: &[u8; 4]) -> (r: usize)
    ensures
        r == rank(order@, tag@),
{
    let mut i: usize = 0;
    while i < order.len()
        invariant
            i <= order@.len(),
            rank(order@.subrange(0, i as int), tag@) == i,
        decreases order@.len() - i,
    {
        assert(order@.subrange(0, i + 1).drop_last() =~= order@.subrange(0, i as int));
        if crate::bytes::same_tag(&order[i], tag) {
            proof {
                lemma_rank_prefix(order@, tag@, i + 1);
            }
            return i;
        }
        i = i + 1;
    }
    assert(order@.subrange(0, i as int) =~= order@);
    i
}

proof fn lemma_rank_prefix(order: Seq<[u8; 4]>, t: Seq<u8>, n: int)
    requires
        0 < n <= order.len(),
        rank(order.subrange(0, n), t) == n - 1,
    ensures
        rank(order, t) == n - 1,
    decreases order.len(),
{
    if order.len() > n {
        assert(order.drop_last().subrange(0, n) =~= order.subrange(0, n));
        lemma_rank_prefix(order.drop_last(), t, n);
    } else {
        assert(order.subrange(0, n) =~= order);
    }
}

/// Append the areas of rank `r`, in order.
fn push_bucket(sorted: &mut Vec<AreaOut>, order: &Vec<[u8; 4]>, areas: &Vec<AreaOut>, r: usize)
    ensures
        pieces_view(final(sorted)@) == pieces_view(old(sorted)@) + bucket(
            pieces_view(areas@),
            order@,
            r as int,
        ),
{
    let ghost ps = pieces_view(areas@);
    let ghost before = pieces_view(sorted@);
    let mut k: usize = 0;
    assert(ps.subrange(0, 0) =~= Seq::<Piece>::empty());
    assert(before =~= before + Seq::<Piece>::empty());
    while k < areas.len()
        invariant
            k <= areas@.len(),
            ps == pieces_view(areas@),
            pieces_view(sorted@) == before + bucket(ps.subrange(0, k as int), order@, r as int),
        decreases areas@.len() - k,
    {
        assert(ps.subrange(0, k + 1).drop_last() =~= ps.subrange(0, k as int));
        let a = &areas[k];
        if rank_of(order, &a.0) == r {
            let ghost b = pieces_view(sorted@);
            let body = copy_range(a.2.as_slice(), 0, a.2.len());
            assert(body@ =~= a.2@);
            sorted.push((a.0, a.1, body));
            assert(pieces_view(sorted@) =~= b.push(ps[k as int]));
        }
        k = k + 1;
        assert(pieces_view(sorted@) =~= before + bucket(ps.subrange(0, k as int), order@, r as int));
    }
    assert(ps.subrange(0, k as int) =~= ps);
}

/// `areas` sorted stably by where their tags come in `order`.
fn sort_by_order(order: &Vec<[u8; 4]>, areas: &Vec<AreaOut>) -> (sorted: Vec<AreaOut>)
    ensures
        pieces_view(sorted@) == ranked(pieces_view(areas@), order@, order@.len() + 1int),
{
    let ghost ps = pieces_view(areas@);
    let mut sorted: Vec<AreaOut> = Vec::new();
    let mut r: usize = 0;
    assert(pieces_view(sorted@) =~= Seq::<Piece>::empty());
    while r < order.len()
        invariant
            r <= order@.len(),
            ps == pieces_view(areas@),
            pieces_view(sorted@) == ranked(ps, order@, r as int),
        decreases order@.len() - r,
    {
        push_bucket(&mut sorted, order, areas, r);
        r = r + 1;
    }
    push_bucket(&mut sorted, order, areas, r);
    sorted
}

/// Write an SVZ holding `areas` in the area order of the source, checked before it is returned.
pub fn assemble(preamble: &[u8; 16], order: &Vec<[u8; 4]>, areas: &Vec<AreaOut>) -> (r: Result<Raw>)
    ensures
        svz_outcome(r, preamble@, order@, pieces_view(areas@)),
{
    let sorted = sort_by_order(order, areas);
    let ghost pv = pieces_view(sorted@);
    let n = sorted.len();
    if n > 255 {
        return Err(Error::TooManyAreasSvz);
    }
    let mut data: Vec<u8> = Vec::new();
    let mut starts: Vec<usize> = Vec::new();
    let mut k: usize = 0;
    while k < n
        invariant
            k <= n == sorted@.len(),
            pv == pieces_view(sorted@),
            data@ == bodies(pv.subrange(0, k as int)),
            starts@.len() == k,
            forall|j: int| 0 <= j < k ==> starts@[j] == bodies(#[trigger] pv.subrange(0, j)).len(),
        decreases n - k,
    {
        assert(pv.subrange(0, k + 1).drop_last() =~= pv.subrange(0, k as int));
        starts.push(data.len());
        push_all(&mut data, sorted[k].2.as_slice());
        k = k + 1;
        assert(data@ =~= bodies(pv.subrange(0, k as int)));
    }
    let first: usize = 16 + 16 * n;
    let mut out: Vec<u8> = Vec::new();
    push_all(&mut out, preamble.as_slice());
    out.set(4, n as u8);
    let ghost head = out@;
    assert(head =~= preamble@.update(4, n as u8));
    let mut i: usize = 0;
    while i < n
        invariant
            i <= n == sorted@.len(),
            pv == pieces_view(sorted@),
            first == 16 + 16 * n,
            starts@.len() == n,
            forall|j: int| 0 <= j < n ==> starts@[j] == bodies(#[trigger] pv.subrange(0, j)).len(),
            out@ == head + table(pv.subrange(0, i as int), first as int),
        decreases n - i,
    {
        assert(pv.subrange(0, i + 1).drop_last() =~= pv.subrange(0, i as int));
        let offset: u128 = first as u128 + starts[i] as u128;
        let p = &sorted[i];
        push_all(&mut out, p.0.as_slice());
        push_all(&mut out, p.1.as_slice());
        push_u32(&mut out, offset as u32);
        push_u32(&mut out, p.2.len() as u32);
        i = i + 1;
        assert(out@ =~= head + table(pv.subrange(0, i as int), first as int));
    }
    assert(pv.subrange(0, n as int) =~= pv);
    push_all(&mut out, data.as_slice());
    let raw = Raw::from_bytes(out);
    vouch(raw)
}

} // verus!
