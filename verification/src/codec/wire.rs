//! Fixed-width integers and length-prefixed byte strings on the wire.

use vstd::bytes::{
    lemma_auto_spec_u32_to_from_le_bytes, lemma_auto_spec_u64_to_from_le_bytes,
    spec_u32_from_le_bytes, spec_u32_to_le_bytes, spec_u64_from_le_bytes, spec_u64_to_le_bytes,
    u32_from_le_bytes, u32_to_le_bytes, u64_from_le_bytes, u64_to_le_bytes,
};
use vstd::prelude::*;
use vstd::slice::slice_subrange;

verus! {

/// The bytes of `b` from `pos` on start with `enc`.
pub open spec fn holds(b: Seq<u8>, pos: int, enc: Seq<u8>) -> bool {
    &&& 0 <= pos
    &&& pos + enc.len() <= b.len()
    &&& b.subrange(pos, pos + enc.len()) == enc
}

/// A concatenation stands at `pos` exactly when its first part stands at
/// `pos` and its second part right after it.
pub proof fn lemma_holds_concat(b: Seq<u8>, pos: int, x: Seq<u8>, y: Seq<u8>)
    ensures
        holds(b, pos, x + y) <==> holds(b, pos, x) && holds(b, pos + x.len(), y),
{
    if holds(b, pos, x + y) {
        assert(b.subrange(pos, pos + x.len()) =~= (x + y).subrange(0, x.len() as int));
        assert((x + y).subrange(0, x.len() as int) =~= x);
        assert(b.subrange(pos + x.len(), pos + x.len() + y.len()) =~= (x + y).subrange(
            x.len() as int,
            (x + y).len() as int,
        ));
        assert((x + y).subrange(x.len() as int, (x + y).len() as int) =~= y);
    }
    if holds(b, pos, x) && holds(b, pos + x.len(), y) {
        assert(b.subrange(pos, pos + (x + y).len()) =~= b.subrange(pos, pos + x.len())
            + b.subrange(pos + x.len(), pos + x.len() + y.len()));
    }
}

/// The little-endian encoding of a 64-bit unsigned integer: eight bytes.
pub open spec fn spec_le64(x: u64) -> Seq<u8> {
    spec_u64_to_le_bytes(x)
}

/// The little-endian encoding of a 32-bit unsigned integer: four bytes.
pub open spec fn spec_le32(x: u32) -> Seq<u8> {
    spec_u32_to_le_bytes(x)
}

/// The two's-complement little-endian encoding of a 32-bit signed integer.
pub open spec fn spec_le32_signed(x: i32) -> Seq<u8> {
    spec_u32_to_le_bytes(x as u32)
}

/// The 64-bit integer that stands at `pos`, with the position after it.
pub open spec fn spec_u64_at(b: Seq<u8>, pos: int) -> Option<(u64, int)> {
    if 0 <= pos && pos + 8 <= b.len() {
        Some((spec_u64_from_le_bytes(b.subrange(pos, pos + 8)), pos + 8))
    } else {
        None
    }
}

/// The 32-bit integer that stands at `pos`, with the position after it.
pub open spec fn spec_u32_at(b: Seq<u8>, pos: int) -> Option<(u32, int)> {
    if 0 <= pos && pos + 4 <= b.len() {
        Some((spec_u32_from_le_bytes(b.subrange(pos, pos + 4)), pos + 4))
    } else {
        None
    }
}

/// The signed 32-bit integer that stands at `pos`.
pub open spec fn spec_i32_at(b: Seq<u8>, pos: int) -> Option<(i32, int)> {
    match spec_u32_at(b, pos) {
        Some((x, end)) => Some((x as i32, end)),
        None => None,
    }
}

/// The 64-bit integer at `pos`, read as a machine-size number; `None` where
/// it does not fit.
pub open spec fn spec_usize_at(b: Seq<u8>, pos: int) -> Option<(usize, int)> {
    match spec_u64_at(b, pos) {
        Some((x, end)) => if x <= usize::MAX {
            Some((x as usize, end))
        } else {
            None
        },
        None => None,
    }
}

/// A byte string on the wire: its length as a 64-bit integer, then the
/// bytes.
pub open spec fn spec_encode_bytes(data: Seq<u8>) -> Seq<u8> {
    spec_le64(data.len() as u64) + data
}

/// The length-prefixed byte string that stands at `pos`.
pub open spec fn spec_bytes_at(b: Seq<u8>, pos: int) -> Option<(Seq<u8>, int)> {
    match spec_u64_at(b, pos) {
        Some((n, start)) => if start + n <= b.len() {
            Some((b.subrange(start, start + n), start + n))
        } else {
            None
        },
        None => None,
    }
}

/// A 64-bit integer takes eight bytes.
pub proof fn lemma_le64_len(x: u64)
    ensures
        spec_le64(x).len() == 8,
{
    lemma_auto_spec_u64_to_from_le_bytes();
}

/// A 32-bit integer takes four bytes.
pub proof fn lemma_le32_len(x: u32)
    ensures
        spec_le32(x).len() == 4,
{
    lemma_auto_spec_u32_to_from_le_bytes();
}

/// Reading a 64-bit integer inverts writing it.
pub proof fn lemma_u64_at(b: Seq<u8>, pos: int)
    ensures
        forall|x: u64| holds(b, pos, #[trigger] spec_le64(x)) ==> spec_u64_at(b, pos) == Some((x, pos + 8)),
        spec_u64_at(b, pos).is_some() ==> holds(b, pos, spec_le64(spec_u64_at(b, pos).unwrap().0))
            && spec_u64_at(b, pos).unwrap().1 == pos + 8,
{
    lemma_auto_spec_u64_to_from_le_bytes();
}

/// Reading a 32-bit integer inverts writing it.
pub proof fn lemma_u32_at(b: Seq<u8>, pos: int)
    ensures
        forall|x: u32| holds(b, pos, #[trigger] spec_le32(x)) ==> spec_u32_at(b, pos) == Some((x, pos + 4)),
        spec_u32_at(b, pos).is_some() ==> holds(b, pos, spec_le32(spec_u32_at(b, pos).unwrap().0))
            && spec_u32_at(b, pos).unwrap().1 == pos + 4,
{
    lemma_auto_spec_u32_to_from_le_bytes();
}

/// Signed and unsigned 32-bit integers correspond one to one.
pub proof fn lemma_i32_u32(x: i32, y: u32)
    ensures
        (x as u32) as i32 == x,
        (y as i32) as u32 == y,
{
    assert((x as u32) as i32 == x) by (bit_vector);
    assert((y as i32) as u32 == y) by (bit_vector);
}

/// Reading a signed 32-bit integer inverts writing it.
pub proof fn lemma_i32_at(b: Seq<u8>, pos: int)
    ensures
        forall|x: i32|
            holds(b, pos, #[trigger] spec_le32_signed(x)) ==> spec_i32_at(b, pos) == Some(
                (x, pos + 4),
            ),
        spec_i32_at(b, pos).is_some() ==> holds(
            b,
            pos,
            spec_le32_signed(spec_i32_at(b, pos).unwrap().0),
        ) && spec_i32_at(b, pos).unwrap().1 == pos + 4,
{
    lemma_u32_at(b, pos);
    assert forall|x: i32| holds(b, pos, #[trigger] spec_le32_signed(x)) implies spec_i32_at(b, pos)
        == Some((x, pos + 4)) by {
        lemma_i32_u32(x, 0);
        assert(holds(b, pos, spec_le32(x as u32)));
    }
    if spec_i32_at(b, pos).is_some() {
        let y = spec_u32_at(b, pos).unwrap().0;
        lemma_i32_u32(0, y);
    }
}

/// Reading a length-prefixed byte string inverts writing it.
pub proof fn lemma_bytes_at(b: Seq<u8>, pos: int)
    ensures
        forall|data: Seq<u8>|
            data.len() <= u64::MAX && holds(b, pos, #[trigger] spec_encode_bytes(data))
                ==> spec_bytes_at(b, pos) == Some((data, pos + 8 + data.len())),
        spec_bytes_at(b, pos).is_some() ==> {
            let data = spec_bytes_at(b, pos).unwrap().0;
            &&& data.len() <= u64::MAX
            &&& holds(b, pos, spec_encode_bytes(data))
            &&& spec_bytes_at(b, pos).unwrap().1 == pos + 8 + data.len()
        },
{
    lemma_u64_at(b, pos);
    assert forall|data: Seq<u8>|
        data.len() <= u64::MAX && holds(b, pos, #[trigger] spec_encode_bytes(data)) implies spec_bytes_at(
        b,
        pos,
    ) == Some((data, pos + 8 + data.len())) by {
        let prefix = spec_le64(data.len() as u64);
        lemma_le64_len(data.len() as u64);
        lemma_holds_concat(b, pos, prefix, data);
    }
    if spec_bytes_at(b, pos).is_some() {
        let n = spec_u64_at(b, pos).unwrap().0;
        let data = spec_bytes_at(b, pos).unwrap().0;
        lemma_le64_len(n);
        assert(data.len() == n);
        lemma_holds_concat(b, pos, spec_le64(n), data);
    }
}

/// Reads the 64-bit integer at `pos`.
pub fn read_u64(bytes: &[u8], pos: usize) -> (res: Option<(u64, usize)>)
    ensures
        match spec_u64_at(bytes@, pos as int) {
            Some((x, end)) => res.is_some() && res.unwrap().0 == x && res.unwrap().1 == end && end
                <= bytes@.len(),
            None => res.is_none(),
        },
{
    if bytes.len() < 8 || pos > bytes.len() - 8 {
        return None;
    }
    let x = u64_from_le_bytes(slice_subrange(bytes, pos, pos + 8));
    Some((x, pos + 8))
}

/// Reads the 32-bit integer at `pos`.
pub fn read_u32(bytes: &[u8], pos: usize) -> (res: Option<(u32, usize)>)
    ensures
        match spec_u32_at(bytes@, pos as int) {
            Some((x, end)) => res.is_some() && res.unwrap().0 == x && res.unwrap().1 == end && end
                <= bytes@.len(),
            None => res.is_none(),
        },
{
    if bytes.len() < 4 || pos > bytes.len() - 4 {
        return None;
    }
    let x = u32_from_le_bytes(slice_subrange(bytes, pos, pos + 4));
    Some((x, pos + 4))
}

/// Reads the signed 32-bit integer at `pos`.
pub fn read_i32(bytes: &[u8], pos: usize) -> (res: Option<(i32, usize)>)
    ensures
        match spec_i32_at(bytes@, pos as int) {
            Some((x, end)) => res.is_some() && res.unwrap().0 == x && res.unwrap().1 == end && end
                <= bytes@.len(),
            None => res.is_none(),
        },
{
    match read_u32(bytes, pos) {
        Some((x, end)) => Some((#[verifier::truncate] (x as i32), end)),
        None => None,
    }
}

/// Reads the 64-bit integer at `pos` as a machine-size number.
pub fn read_usize(bytes: &[u8], pos: usize) -> (res: Option<(usize, usize)>)
    ensures
        match spec_usize_at(bytes@, pos as int) {
            Some((x, end)) => res.is_some() && res.unwrap().0 == x && res.unwrap().1 == end && end
                <= bytes@.len(),
            None => res.is_none(),
        },
{
    match read_u64(bytes, pos) {
        Some((x, end)) => {
            if x > usize::MAX as u64 {
                None
            } else {
                Some((x as usize, end))
            }
        },
        None => None,
    }
}

/// Reads the length-prefixed byte string at `pos`.
pub fn read_bytes(bytes: &[u8], pos: usize) -> (res: Option<(Vec<u8>, usize)>)
    ensures
        match spec_bytes_at(bytes@, pos as int) {
            Some((data, end)) => res.is_some() && res.unwrap().0@ == data && res.unwrap().1 == end
                && end <= bytes@.len(),
            None => res.is_none(),
        },
{
    match read_u64(bytes, pos) {
        Some((n, start)) => {
            if n > (bytes.len() - start) as u64 {
                None
            } else {
                let end: usize = start + n as usize;
                let data = vstd::slice::slice_to_vec(slice_subrange(bytes, start, end));
                Some((data, end))
            }
        },
        None => None,
    }
}

/// Appends the encoding of a 64-bit integer to `out`.
pub fn write_u64(out: &mut Vec<u8>, x: u64)
    ensures
        final(out)@ == old(out)@ + spec_le64(x),
{
    let bytes = u64_to_le_bytes(x);
    out.extend_from_slice(bytes.as_slice());
}

/// Appends the encoding of a 32-bit integer to `out`.
pub fn write_u32(out: &mut Vec<u8>, x: u32)
    ensures
        final(out)@ == old(out)@ + spec_le32(x),
{
    let bytes = u32_to_le_bytes(x);
    out.extend_from_slice(bytes.as_slice());
}

/// Appends the encoding of a signed 32-bit integer to `out`.
pub fn write_i32(out: &mut Vec<u8>, x: i32)
    ensures
        final(out)@ == old(out)@ + spec_le32_signed(x),
{
    write_u32(out, #[verifier::truncate] (x as u32));
}

/// Appends a length-prefixed byte string to `out`.
pub fn write_bytes(out: &mut Vec<u8>, data: &[u8])
    ensures
        final(out)@ == old(out)@ + spec_encode_bytes(data@),
{
    write_u64(out, data.len() as u64);
    out.extend_from_slice(data);
    assert(out@ =~= old(out)@ + spec_encode_bytes(data@));
}

} // verus!
