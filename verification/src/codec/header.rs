//! The fixed-size record of a revision header.

use crate::codec::wire::{
    holds, lemma_holds_concat, lemma_i32_at, lemma_le32_len, lemma_le64_len, lemma_u32_at,
    lemma_u64_at, read_i32, read_u32, read_u64, spec_i32_at, spec_le32, spec_le32_signed,
    spec_le64, spec_u32_at, spec_u64_at, write_i32, write_u32, write_u64,
};
use crate::revlog::model::{HeaderSpec, RevlogHeader};
use vstd::prelude::*;

verus! {

/// Size in bytes of an encoded revision header.
pub const HEADER_SIZE: usize = 81;

/// The three ids of a header are twenty bytes each.
pub open spec fn header_valid(h: HeaderSpec) -> bool {
    h.p1rev.len() == 20 && h.p2rev.len() == 20 && h.nodeid.len() == 20
}

/// The fields of a header in declaration order: `rev` as one byte, `offset`
/// as eight, `length`, `baserev` and `linkrev` as four each, and the three
/// ids as twenty raw bytes each.
pub open spec fn spec_encode_header(h: HeaderSpec) -> Seq<u8> {
    seq![h.rev] + spec_le64(h.offset) + spec_le32(h.length) + spec_le32_signed(h.baserev)
        + spec_le32_signed(h.linkrev) + h.p1rev + h.p2rev + h.nodeid
}

/// The header record that stands at `pos`, with the position after it.
pub open spec fn spec_header_at(b: Seq<u8>, pos: int) -> Option<(HeaderSpec, int)> {
    if 0 <= pos && pos + HEADER_SIZE <= b.len() {
        Some(
            (
                HeaderSpec {
                    rev: b[pos],
                    offset: spec_u64_at(b, pos + 1).unwrap().0,
                    length: spec_u32_at(b, pos + 9).unwrap().0,
                    baserev: spec_i32_at(b, pos + 13).unwrap().0,
                    linkrev: spec_i32_at(b, pos + 17).unwrap().0,
                    p1rev: b.subrange(pos + 21, pos + 41),
                    p2rev: b.subrange(pos + 41, pos + 61),
                    nodeid: b.subrange(pos + 61, pos + 81),
                },
                pos + HEADER_SIZE,
            ),
        )
    } else {
        None
    }
}

/// Every header record has the same size.
pub proof fn lemma_header_len(h: HeaderSpec)
    requires
        header_valid(h),
    ensures
        spec_encode_header(h).len() == HEADER_SIZE,
{
    lemma_le64_len(h.offset);
    lemma_le32_len(h.length);
    lemma_le32_len(h.baserev as u32);
    lemma_le32_len(h.linkrev as u32);
}

proof fn lemma_header_fields(b: Seq<u8>, pos: int, h: HeaderSpec)
    requires
        header_valid(h),
    ensures
        holds(b, pos, spec_encode_header(h)) <==> {
            &&& holds(b, pos, seq![h.rev])
            &&& holds(b, pos + 1, spec_le64(h.offset))
            &&& holds(b, pos + 9, spec_le32(h.length))
            &&& holds(b, pos + 13, spec_le32_signed(h.baserev))
            &&& holds(b, pos + 17, spec_le32_signed(h.linkrev))
            &&& holds(b, pos + 21, h.p1rev)
            &&& holds(b, pos + 41, h.p2rev)
            &&& holds(b, pos + 61, h.nodeid)
        },
{
    lemma_le64_len(h.offset);
    lemma_le32_len(h.length);
    lemma_le32_len(h.baserev as u32);
    lemma_le32_len(h.linkrev as u32);
    let part1 = seq![h.rev];
    let part2 = part1 + spec_le64(h.offset);
    let part3 = part2 + spec_le32(h.length);
    let part4 = part3 + spec_le32_signed(h.baserev);
    let part5 = part4 + spec_le32_signed(h.linkrev);
    let part6 = part5 + h.p1rev;
    let part7 = part6 + h.p2rev;
    lemma_holds_concat(b, pos, part1, spec_le64(h.offset));
    lemma_holds_concat(b, pos, part2, spec_le32(h.length));
    lemma_holds_concat(b, pos, part3, spec_le32_signed(h.baserev));
    lemma_holds_concat(b, pos, part4, spec_le32_signed(h.linkrev));
    lemma_holds_concat(b, pos, part5, h.p1rev);
    lemma_holds_concat(b, pos, part6, h.p2rev);
    lemma_holds_concat(b, pos, part7, h.nodeid);
}

/// Reading a header record inverts writing it.
pub proof fn lemma_header_at(b: Seq<u8>, pos: int)
    ensures
        forall|h: HeaderSpec|
            header_valid(h) && holds(b, pos, #[trigger] spec_encode_header(h)) ==> spec_header_at(
                b,
                pos,
            ) == Some((h, pos + HEADER_SIZE)),
        spec_header_at(b, pos).is_some() ==> {
            let h = spec_header_at(b, pos).unwrap().0;
            &&& header_valid(h)
            &&& holds(b, pos, spec_encode_header(h))
        },
{
    lemma_u64_at(b, pos + 1);
    lemma_u32_at(b, pos + 9);
    lemma_i32_at(b, pos + 13);
    lemma_i32_at(b, pos + 17);
    assert forall|h: HeaderSpec|
        header_valid(h) && holds(b, pos, #[trigger] spec_encode_header(h)) implies spec_header_at(
        b,
        pos,
    ) == Some((h, pos + HEADER_SIZE)) by {
        lemma_header_fields(b, pos, h);
        lemma_header_len(h);
        assert(b.subrange(pos, pos + 1)[0] == b[pos]);
        let got = spec_header_at(b, pos).unwrap().0;
        assert(got.rev == h.rev);
        assert(got.offset == h.offset);
        assert(got.length == h.length);
        assert(got.baserev == h.baserev);
        assert(got.linkrev == h.linkrev);
        assert(got.p1rev == h.p1rev);
        assert(got.p2rev == h.p2rev);
        assert(got.nodeid == h.nodeid);
    }
    if spec_header_at(b, pos).is_some() {
        let h = spec_header_at(b, pos).unwrap().0;
        lemma_header_fields(b, pos, h);
        assert(b.subrange(pos, pos + 1) =~= seq![h.rev]);
    }
}

/// Reads the twenty bytes of an id at `pos`.
fn read_id(bytes: &[u8], pos: usize) -> (res: [u8; 20])
    requires
        pos + 20 <= bytes@.len(),
    ensures
        res@ == bytes@.subrange(pos as int, pos + 20),
{
    let mut id: [u8; 20] = [0u8; 20];
    let mut i: usize = 0;
    let len: usize = bytes.len();
    while i < 20
        invariant
            0 <= i <= 20,
            pos + 20 <= bytes@.len() == len,
            forall|k: int| 0 <= k < i ==> id@[k] == bytes@[pos + k],
        decreases 20 - i,
    {
        id[i] = bytes[pos + i];
        i = i + 1;
    }
    assert(id@ =~= bytes@.subrange(pos as int, pos + 20));
    id
}

/// Reads the header record at `pos`.
pub fn read_header(bytes: &[u8], pos: usize) -> (res: Option<(RevlogHeader, usize)>)
    ensures
        match spec_header_at(bytes@, pos as int) {
            Some((h, end)) => res.is_some() && res.unwrap().0@ == h && res.unwrap().1 == end && end
                <= bytes@.len(),
            None => res.is_none(),
        },
{
    if bytes.len() < HEADER_SIZE || pos > bytes.len() - HEADER_SIZE {
        return None;
    }
    let rev = bytes[pos];
    let offset = read_u64(bytes, pos + 1).unwrap().0;
    let length = read_u32(bytes, pos + 9).unwrap().0;
    let baserev = read_i32(bytes, pos + 13).unwrap().0;
    let linkrev = read_i32(bytes, pos + 17).unwrap().0;
    let p1rev = read_id(bytes, pos + 21);
    let p2rev = read_id(bytes, pos + 41);
    let nodeid = read_id(bytes, pos + 61);
    let header = RevlogHeader { rev, offset, length, baserev, linkrev, p1rev, p2rev, nodeid };
    Some((header, pos + HEADER_SIZE))
}

/// Appends the record of `header` to `out`.
pub fn write_header(out: &mut Vec<u8>, header: &RevlogHeader)
    ensures
        final(out)@ == old(out)@ + spec_encode_header(header@),
{
    out.push(header.rev);
    write_u64(out, header.offset);
    write_u32(out, header.length);
    write_i32(out, header.baserev);
    write_i32(out, header.linkrev);
    out.extend_from_slice(header.p1rev.as_slice());
    out.extend_from_slice(header.p2rev.as_slice());
    out.extend_from_slice(header.nodeid.as_slice());
    assert(out@ =~= old(out)@ + spec_encode_header(header@));
}

/// Encodes `header` as its fixed-size record.
pub fn encode_header(header: &RevlogHeader) -> (res: Vec<u8>)
    ensures
        res@ == spec_encode_header(header@),
        res@.len() == HEADER_SIZE,
{
    let mut out: Vec<u8> = Vec::new();
    write_header(&mut out, header);
    proof {
        lemma_header_len(header@);
        assert(out@ =~= spec_encode_header(header@));
    }
    out
}

} // verus!
