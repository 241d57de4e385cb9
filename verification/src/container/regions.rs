//! The two regions of the revision log inside an archive: header records
//! packed back to back, and entries packed back to back, each entry as long
//! as its header says.

use crate::codec::entry::{
    decode_entry, encode_entry, entry_encodable, lemma_decode_encode_entry, lemma_encode_decode_entry,
    spec_decode_entry, spec_encode_entry, write_entry,
};
use crate::codec::header::{
    header_valid, lemma_header_at, lemma_header_len, read_header, spec_encode_header,
    spec_header_at, write_header, HEADER_SIZE,
};
use crate::codec::wire::{holds, lemma_holds_concat};
use crate::error::{CorruptReason, MdaError};
use crate::revlog::model::{Entry, EntrySpec, HeaderSpec, RevlogHeader};
use vstd::prelude::*;
use vstd::slice::slice_subrange;

verus! {

/// Header records, tightly packed.
pub open spec fn spec_encode_headers(headers: Seq<HeaderSpec>) -> Seq<u8>
    decreases headers.len(),
{
    if headers.len() == 0 {
        Seq::empty()
    } else {
        spec_encode_headers(headers.drop_last()) + spec_encode_header(headers.last())
    }
}

/// Entries, tightly packed.
pub open spec fn spec_encode_entries(entries: Seq<EntrySpec>) -> Seq<u8>
    decreases entries.len(),
{
    if entries.len() == 0 {
        Seq::empty()
    } else {
        spec_encode_entries(entries.drop_last()) + spec_encode_entry(entries.last())
    }
}

/// Every header has ids of twenty bytes.
pub open spec fn headers_valid(headers: Seq<HeaderSpec>) -> bool {
    forall|i: int| 0 <= i < headers.len() ==> header_valid(#[trigger] headers[i])
}

/// Every entry can be encoded.
pub open spec fn entries_encodable(entries: Seq<EntrySpec>) -> bool {
    forall|i: int| 0 <= i < entries.len() ==> entry_encodable(#[trigger] entries[i])
}

/// Each header's `length` is the byte length of the encoding of the entry
/// it is paired with.
pub open spec fn lengths_match(headers: Seq<HeaderSpec>, entries: Seq<EntrySpec>) -> bool {
    &&& headers.len() == entries.len()
    &&& forall|i: int|
        0 <= i < headers.len() ==> (#[trigger] headers[i]).length == spec_encode_entry(
            entries[i],
        ).len()
}

/// `h` with its `length` set to the byte length of the encoding of `e`.
pub open spec fn spec_seal_header(h: HeaderSpec, e: EntrySpec) -> HeaderSpec {
    HeaderSpec {
        rev: h.rev,
        offset: h.offset,
        length: spec_encode_entry(e).len() as u32,
        baserev: h.baserev,
        linkrev: h.linkrev,
        p1rev: h.p1rev,
        p2rev: h.p2rev,
        nodeid: h.nodeid,
    }
}

/// The headers as an archive stores them: each with the byte length of its
/// entry's encoding.
pub open spec fn spec_seal(headers: Seq<HeaderSpec>, entries: Seq<EntrySpec>) -> Seq<HeaderSpec> {
    Seq::new(headers.len(), |i: int| spec_seal_header(headers[i], entries[i]))
}

/// Every entry's encoding is short enough for the header field that
/// records its length.
pub open spec fn entries_fit(entries: Seq<EntrySpec>) -> bool {
    forall|i: int|
        0 <= i < entries.len() ==> spec_encode_entry(#[trigger] entries[i]).len() <= u32::MAX
}

/// The `count` header records that stand at `pos`.
pub open spec fn spec_headers_at(b: Seq<u8>, pos: int, count: nat) -> Option<(Seq<HeaderSpec>, int)>
    decreases count,
{
    if count == 0 {
        Some((Seq::empty(), pos))
    } else {
        match spec_headers_at(b, pos, (count - 1) as nat) {
            Some((headers, p)) => match spec_header_at(b, p) {
                Some((h, end)) => Some((headers.push(h), end)),
                None => None,
            },
            None => None,
        }
    }
}

/// The header records that fill the bytes of `b` from `from` to `to`.
pub open spec fn spec_headers_in(b: Seq<u8>, from: int, to: int) -> Result<Seq<HeaderSpec>, MdaError> {
    if (to - from) % (HEADER_SIZE as int) != 0 {
        Err(MdaError::CorruptArchive(CorruptReason::BadHeaderRegion))
    } else {
        match spec_headers_at(b, from, ((to - from) / (HEADER_SIZE as int)) as nat) {
            Some((headers, end)) => Ok(headers),
            None => Err(MdaError::CorruptArchive(CorruptReason::BadHeaderRegion)),
        }
    }
}

/// The entries that stand at `pos`, one for each of `headers`, each filling
/// exactly as many bytes as its header's `length` says; with the position
/// after the last of them.
pub open spec fn spec_entries_at(b: Seq<u8>, pos: int, headers: Seq<HeaderSpec>) -> Result<
    (Seq<EntrySpec>, int),
    MdaError,
>
    decreases headers.len(),
{
    if headers.len() == 0 {
        Ok((Seq::empty(), pos))
    } else {
        match spec_entries_at(b, pos, headers.drop_last()) {
            Err(e) => Err(e),
            Ok((entries, p)) => {
                let end = p + headers.last().length;
                if end > b.len() {
                    Err(MdaError::CorruptArchive(CorruptReason::BadEntryRegion))
                } else {
                    match spec_decode_entry(b.subrange(p, end)) {
                        Some(entry) => Ok((entries.push(entry), end)),
                        None => Err(MdaError::CorruptArchive(CorruptReason::BadEntry)),
                    }
                }
            },
        }
    }
}

/// A run of header records is as long as one record times their number.
pub proof fn lemma_headers_len(headers: Seq<HeaderSpec>)
    requires
        headers_valid(headers),
    ensures
        spec_encode_headers(headers).len() == HEADER_SIZE * headers.len(),
    decreases headers.len(),
{
    if headers.len() > 0 {
        let shorter = headers.drop_last();
        assert forall|i: int| 0 <= i < shorter.len() implies header_valid(#[trigger] shorter[i]) by {
            assert(shorter[i] == headers[i]);
        }
        lemma_headers_len(shorter);
        lemma_header_len(headers.last());
    }
}

/// Header records that stand at `pos` are read back from there.
pub proof fn lemma_headers_written(b: Seq<u8>, pos: int, headers: Seq<HeaderSpec>)
    requires
        headers_valid(headers),
        holds(b, pos, spec_encode_headers(headers)),
    ensures
        spec_headers_at(b, pos, headers.len()) == Some(
            (headers, pos + HEADER_SIZE * headers.len()),
        ),
    decreases headers.len(),
{
    if headers.len() > 0 {
        let shorter = headers.drop_last();
        assert forall|i: int| 0 <= i < shorter.len() implies header_valid(#[trigger] shorter[i]) by {
            assert(shorter[i] == headers[i]);
        }
        lemma_headers_len(shorter);
        lemma_holds_concat(b, pos, spec_encode_headers(shorter), spec_encode_header(headers.last()));
        lemma_headers_written(b, pos, shorter);
        lemma_header_at(b, pos + HEADER_SIZE * shorter.len());
        assert(shorter.push(headers.last()) =~= headers);
    }
}

/// Wherever `count` records fit, `count` records are read.
pub proof fn lemma_headers_read(b: Seq<u8>, pos: int, count: nat)
    requires
        0 <= pos,
        pos + HEADER_SIZE * count <= b.len(),
    ensures
        spec_headers_at(b, pos, count).is_some(),
        spec_headers_at(b, pos, count).unwrap().0.len() == count,
        spec_headers_at(b, pos, count).unwrap().1 == pos + HEADER_SIZE * count,
        headers_valid(spec_headers_at(b, pos, count).unwrap().0),
    decreases count,
{
    if count > 0 {
        lemma_headers_read(b, pos, (count - 1) as nat);
        let (shorter, p) = spec_headers_at(b, pos, (count - 1) as nat).unwrap();
        lemma_header_at(b, p);
        let headers = spec_headers_at(b, pos, count).unwrap().0;
        assert forall|i: int| 0 <= i < headers.len() implies header_valid(#[trigger] headers[i]) by {
            if i < shorter.len() {
                assert(headers[i] == shorter[i]);
            }
        }
    }
}

/// Header records read from `pos` stand there.
pub proof fn lemma_headers_stand(b: Seq<u8>, pos: int, count: nat)
    requires
        0 <= pos <= b.len(),
        spec_headers_at(b, pos, count).is_some(),
    ensures
        holds(b, pos, spec_encode_headers(spec_headers_at(b, pos, count).unwrap().0)),
        headers_valid(spec_headers_at(b, pos, count).unwrap().0),
        spec_headers_at(b, pos, count).unwrap().0.len() == count,
        spec_headers_at(b, pos, count).unwrap().1 == pos + spec_encode_headers(
            spec_headers_at(b, pos, count).unwrap().0,
        ).len(),
    decreases count,
{
    if count == 0 {
        assert(b.subrange(pos, pos) =~= Seq::<u8>::empty());
    } else {
        lemma_headers_stand(b, pos, (count - 1) as nat);
        let (shorter, p) = spec_headers_at(b, pos, (count - 1) as nat).unwrap();
        let (h, end) = spec_header_at(b, p).unwrap();
        lemma_header_at(b, p);
        lemma_header_len(h);
        let headers = shorter.push(h);
        assert(headers.drop_last() =~= shorter);
        lemma_holds_concat(b, pos, spec_encode_headers(shorter), spec_encode_header(h));
        assert forall|i: int| 0 <= i < headers.len() implies header_valid(#[trigger] headers[i]) by {
            if i < shorter.len() {
                assert(headers[i] == shorter[i]);
            }
        }
    }
}

/// Entries that stand at `pos`, paired with headers that record their
/// lengths, are read back from there.
pub proof fn lemma_entries_written(
    b: Seq<u8>,
    pos: int,
    headers: Seq<HeaderSpec>,
    entries: Seq<EntrySpec>,
)
    requires
        entries_encodable(entries),
        lengths_match(headers, entries),
        holds(b, pos, spec_encode_entries(entries)),
    ensures
        spec_entries_at(b, pos, headers) == Ok::<(Seq<EntrySpec>, int), MdaError>(
            (entries, pos + spec_encode_entries(entries).len()),
        ),
    decreases headers.len(),
{
    if headers.len() > 0 {
        let fewer = headers.drop_last();
        let shorter = entries.drop_last();
        assert forall|i: int| 0 <= i < shorter.len() implies entry_encodable(
            #[trigger] shorter[i],
        ) by {
            assert(shorter[i] == entries[i]);
        }
        assert forall|i: int| 0 <= i < fewer.len() implies (#[trigger] fewer[i]).length
            == spec_encode_entry(shorter[i]).len() by {
            assert(fewer[i] == headers[i]);
            assert(shorter[i] == entries[i]);
        }
        let last = spec_encode_entry(entries.last());
        lemma_holds_concat(b, pos, spec_encode_entries(shorter), last);
        lemma_entries_written(b, pos, fewer, shorter);
        let p = pos + spec_encode_entries(shorter).len();
        assert(headers.last().length == last.len());
        lemma_decode_encode_entry(entries.last());
        assert(shorter.push(entries.last()) =~= entries);
    } else {
        assert(entries =~= Seq::<EntrySpec>::empty());
    }
}

/// Entries read from `pos` stand there, and each is as long as its header
/// says.
pub proof fn lemma_entries_read(b: Seq<u8>, pos: int, headers: Seq<HeaderSpec>)
    requires
        0 <= pos <= b.len(),
        spec_entries_at(b, pos, headers).is_ok(),
    ensures
        ({
            let (entries, end) = spec_entries_at(b, pos, headers).unwrap();
            &&& lengths_match(headers, entries)
            &&& entries_encodable(entries)
            &&& holds(b, pos, spec_encode_entries(entries))
            &&& end == pos + spec_encode_entries(entries).len()
            &&& end <= b.len()
        }),
    decreases headers.len(),
{
    if headers.len() == 0 {
        assert(b.subrange(pos, pos) =~= Seq::<u8>::empty());
    } else {
        let fewer = headers.drop_last();
        lemma_entries_read(b, pos, fewer);
        let (shorter, p) = spec_entries_at(b, pos, fewer).unwrap();
        let end = p + headers.last().length;
        let entry = spec_decode_entry(b.subrange(p, end)).unwrap();
        lemma_encode_decode_entry(b.subrange(p, end));
        let entries = shorter.push(entry);
        assert(entries.drop_last() =~= shorter);
        lemma_holds_concat(b, pos, spec_encode_entries(shorter), spec_encode_entry(entry));
        assert forall|i: int| 0 <= i < headers.len() implies (#[trigger] headers[i]).length
            == spec_encode_entry(entries[i]).len() by {
            if i < fewer.len() {
                assert(headers[i] == fewer[i]);
                assert(entries[i] == shorter[i]);
            }
        }
        assert forall|i: int| 0 <= i < entries.len() implies entry_encodable(
            #[trigger] entries[i],
        ) by {
            if i < shorter.len() {
                assert(entries[i] == shorter[i]);
            }
        }
    }
}

/// Once the entries of a shorter run of headers cannot be read, those of a
/// longer run cannot be read either, and the failure is the same.
pub proof fn lemma_entries_fail(b: Seq<u8>, pos: int, headers: Seq<HeaderSpec>, k: int)
    requires
        0 <= k <= headers.len(),
        spec_entries_at(b, pos, headers.take(k)).is_err(),
    ensures
        spec_entries_at(b, pos, headers) == spec_entries_at(b, pos, headers.take(k)),
    decreases headers.len(),
{
    if k < headers.len() {
        assert(headers.drop_last().take(k) =~= headers.take(k));
        lemma_entries_fail(b, pos, headers.drop_last(), k);
    } else {
        assert(headers.take(k) =~= headers);
    }
}

/// Appends the records of `headers` to `out`.
pub fn write_headers(out: &mut Vec<u8>, headers: &Vec<RevlogHeader>)
    ensures
        final(out)@ == old(out)@ + spec_encode_headers(headers.deep_view()),
{
    let ghost start = out@;
    let mut i: usize = 0;
    assert(headers.deep_view().take(0) =~= Seq::<HeaderSpec>::empty());
    assert(out@ =~= start + spec_encode_headers(headers.deep_view().take(0)));
    while i < headers.len()
        invariant
            0 <= i <= headers.len(),
            out@ == start + spec_encode_headers(headers.deep_view().take(i as int)),
        decreases headers.len() - i,
    {
        write_header(out, &headers[i]);
        proof {
            assert(headers.deep_view().take(i as int + 1).drop_last() =~= headers.deep_view().take(
                i as int,
            ));
            assert(out@ =~= start + spec_encode_headers(headers.deep_view().take(i as int + 1)));
        }
        i = i + 1;
    }
    assert(headers.deep_view().take(i as int) =~= headers.deep_view());
}

/// Reads the header records that fill `bytes` from `from` to `to`.
pub(crate) fn read_headers(bytes: &[u8], from: usize, to: usize) -> (res: Result<Vec<RevlogHeader>, MdaError>)
    requires
        from <= to <= bytes@.len(),
    ensures
        match spec_headers_in(bytes@, from as int, to as int) {
            Ok(headers) => res.is_ok() && res.unwrap().deep_view() == headers,
            Err(e) => res matches Err(x) && x == e,
        },
{
    if (to - from) % HEADER_SIZE != 0 {
        return Err(MdaError::CorruptArchive(CorruptReason::BadHeaderRegion));
    }
    let count: usize = (to - from) / HEADER_SIZE;
    assert(HEADER_SIZE * count == to - from) by (nonlinear_arith)
        requires
            count == (to - from) / (HEADER_SIZE as int),
            (to - from) % (HEADER_SIZE as int) == 0,
            HEADER_SIZE == 81,
    ;
    proof {
        lemma_headers_read(bytes@, from as int, count as nat);
    }
    let mut headers: Vec<RevlogHeader> = Vec::new();
    let mut p: usize = from;
    let mut k: usize = 0;
    assert(headers.deep_view() =~= Seq::<HeaderSpec>::empty());
    while k < count
        invariant
            0 <= k <= count,
            from <= to <= bytes@.len(),
            HEADER_SIZE * count == to - from,
            p == from + HEADER_SIZE * k,
            spec_headers_at(bytes@, from as int, k as nat) == Some((headers.deep_view(), p as int)),
        decreases count - k,
    {
        proof {
            lemma_headers_read(bytes@, from as int, (k + 1) as nat);
            assert(HEADER_SIZE * (k + 1) <= HEADER_SIZE * count) by (nonlinear_arith)
                requires
                    k + 1 <= count,
            ;
        }
        let (header, end) = read_header(bytes, p).unwrap();
        let ghost before = headers.deep_view();
        headers.push(header);
        assert(headers.deep_view() =~= before.push(header@));
        p = end;
        k = k + 1;
    }
    Ok(headers)
}

/// Appends the encodings of `entries` to `out`.
pub fn write_entries(out: &mut Vec<u8>, entries: &Vec<Entry>)
    ensures
        final(out)@ == old(out)@ + spec_encode_entries(entries.deep_view()),
{
    let ghost start = out@;
    let mut i: usize = 0;
    assert(entries.deep_view().take(0) =~= Seq::<EntrySpec>::empty());
    assert(out@ =~= start + spec_encode_entries(entries.deep_view().take(0)));
    while i < entries.len()
        invariant
            0 <= i <= entries.len(),
            out@ == start + spec_encode_entries(entries.deep_view().take(i as int)),
        decreases entries.len() - i,
    {
        write_entry(out, &entries[i]);
        proof {
            assert(entries.deep_view().take(i as int + 1).drop_last() =~= entries.deep_view().take(
                i as int,
            ));
            assert(out@ =~= start + spec_encode_entries(entries.deep_view().take(i as int + 1)));
        }
        i = i + 1;
    }
    assert(entries.deep_view().take(i as int) =~= entries.deep_view());
}

/// Reads, from `pos` on, one entry for each of `headers`, each from as many
/// bytes as its header's `length` says.
pub(crate) fn read_entries(bytes: &[u8], pos: usize, headers: &Vec<RevlogHeader>) -> (res: Result<
    Vec<Entry>,
    MdaError,
>)
    requires
        pos <= bytes@.len(),
    ensures
        match spec_entries_at(bytes@, pos as int, headers.deep_view()) {
            Ok((entries, end)) => res.is_ok() && res.unwrap().deep_view() == entries,
            Err(e) => res matches Err(x) && x == e,
        },
{
    let mut entries: Vec<Entry> = Vec::new();
    let mut p: usize = pos;
    let mut i: usize = 0;
    assert(entries.deep_view() =~= Seq::<EntrySpec>::empty());
    assert(headers.deep_view().take(0) =~= Seq::<HeaderSpec>::empty());
    while i < headers.len()
        invariant
            0 <= i <= headers.len(),
            pos <= p <= bytes@.len(),
            spec_entries_at(bytes@, pos as int, headers.deep_view().take(i as int)) == Ok::<
                (Seq<EntrySpec>, int),
                MdaError,
            >((entries.deep_view(), p as int)),
        decreases headers.len() - i,
    {
        let length: usize = headers[i].length as usize;
        proof {
            assert(headers.deep_view().take(i as int + 1).drop_last() =~= headers.deep_view().take(
                i as int,
            ));
            assert(headers.deep_view().take(i as int + 1).last() == headers[i as int]@);
        }
        if length > bytes.len() - p {
            proof {
                lemma_entries_fail(bytes@, pos as int, headers.deep_view(), i as int + 1);
            }
            return Err(MdaError::CorruptArchive(CorruptReason::BadEntryRegion));
        }
        match decode_entry(slice_subrange(bytes, p, p + length)) {
            Ok(entry) => {
                let ghost before = entries.deep_view();
                entries.push(entry);
                assert(entries.deep_view() =~= before.push(entry@));
                p = p + length;
            },
            Err(e) => {
                proof {
                    lemma_entries_fail(bytes@, pos as int, headers.deep_view(), i as int + 1);
                }
                return Err(e);
            },
        }
        i = i + 1;
    }
    assert(headers.deep_view().take(i as int) =~= headers.deep_view());
    Ok(entries)
}

/// Encodes the entries back to back and gives each header the byte length
/// of its entry's encoding. Fails where headers and entries are not paired,
/// or where an encoding is too long for the header field.
pub fn seal_entries(headers: &Vec<RevlogHeader>, entries: &Vec<Entry>) -> (res: Result<
    (Vec<RevlogHeader>, Vec<u8>),
    MdaError,
>)
    ensures
        headers.len() != entries.len() ==> res == Err::<(Vec<RevlogHeader>, Vec<u8>), MdaError>(
            MdaError::InvariantViolated,
        ),
        headers.len() == entries.len() && !entries_fit(entries.deep_view()) ==> res == Err::<
            (Vec<RevlogHeader>, Vec<u8>),
            MdaError,
        >(MdaError::LimitExceeded),
        headers.len() == entries.len() && entries_fit(entries.deep_view()) ==> res.is_ok()
            && res.unwrap().0.deep_view() == spec_seal(headers.deep_view(), entries.deep_view())
            && res.unwrap().1@ == spec_encode_entries(entries.deep_view()),
{
    if headers.len() != entries.len() {
        return Err(MdaError::InvariantViolated);
    }
    let mut sealed: Vec<RevlogHeader> = Vec::new();
    let mut region: Vec<u8> = Vec::new();
    let mut i: usize = 0;
    assert(entries.deep_view().take(0) =~= Seq::<EntrySpec>::empty());
    while i < entries.len()
        invariant
            0 <= i <= entries.len(),
            headers.len() == entries.len(),
            sealed.len() == i,
            forall|k: int|
                0 <= k < i ==> #[trigger] sealed[k]@ == spec_seal_header(headers[k]@, entries[k]@),
            forall|k: int|
                0 <= k < i ==> spec_encode_entry(#[trigger] entries.deep_view()[k]).len()
                    <= u32::MAX,
            region@ == spec_encode_entries(entries.deep_view().take(i as int)),
        decreases entries.len() - i,
    {
        let encoded = encode_entry(&entries[i]);
        if encoded.len() > u32::MAX as usize {
            assert(spec_encode_entry(entries.deep_view()[i as int]).len() > u32::MAX);
            return Err(MdaError::LimitExceeded);
        }
        let header = &headers[i];
        sealed.push(
            RevlogHeader {
                rev: header.rev,
                offset: header.offset,
                length: encoded.len() as u32,
                baserev: header.baserev,
                linkrev: header.linkrev,
                p1rev: header.p1rev,
                p2rev: header.p2rev,
                nodeid: header.nodeid,
            },
        );
        region.extend_from_slice(encoded.as_slice());
        proof {
            assert(entries.deep_view().take(i as int + 1).drop_last() =~= entries.deep_view().take(
                i as int,
            ));
        }
        i = i + 1;
    }
    proof {
        assert(entries.deep_view().take(i as int) =~= entries.deep_view());
        assert(sealed.deep_view() =~= spec_seal(headers.deep_view(), entries.deep_view()));
    }
    Ok((sealed, region))
}

} // verus!
