//! What is written to an archive is what is read back from it.

use crate::codec::entry::spec_encode_entry;
use crate::codec::header::{header_valid, HEADER_SIZE};
use crate::container::archive::{
    spec_encode_body, spec_encode_mda, spec_extract_anno, spec_extract_train,
    spec_get_anno_revlog, spec_layout, spec_read_info, spec_update_anno,
    spec_write_error, spec_written_revlog,
};
use crate::hash::{spec_nodeid, NULLID};
use crate::revlog::laws::{
    aligned, lemma_add_latest_again, lemma_add_well_formed, lemma_next_entry_bounded, log_wf,
    spec_payload,
};
use crate::revlog::lemmas::spec_flat;
use crate::revlog::model::spec_resolve;
use crate::revlog::ops::{spec_add, spec_next_entry, spec_next_header, spec_reconstruct};
use crate::container::format::{
    index_in_range, lemma_decode_encode_training, lemma_encode_decode_training,
    lemma_index_len, lemma_index_read, lemma_index_written, spec_encode_index,
    spec_encode_training, spec_read_index, MDAIndex, TrainingSpec, INDEX_SIZE,
};
use crate::container::regions::{
    entries_encodable, entries_fit, headers_valid, lemma_entries_read, lemma_entries_written,
    lemma_headers_len, lemma_headers_read, lemma_headers_stand, lemma_headers_written,
    lengths_match,
    spec_encode_entries, spec_encode_headers, spec_entries_at, spec_headers_in,
    spec_seal,
};
use crate::error::{CorruptReason, MdaError};
use crate::revlog::model::{EntrySpec, HeaderSpec, RevlogIndex, RevlogSpec};
use crate::revlog::ops::spec_resolve_revision;
use vstd::prelude::*;

verus! {

/// The encodings of the first `k` entries open the encoding of all.
pub proof fn lemma_entries_prefix(entries: Seq<EntrySpec>, k: int)
    requires
        0 <= k <= entries.len(),
    ensures
        spec_encode_entries(entries.take(k)).len() <= spec_encode_entries(entries).len(),
        spec_encode_entries(entries).subrange(0, spec_encode_entries(entries.take(k)).len() as int)
            == spec_encode_entries(entries.take(k)),
    decreases entries.len(),
{
    let whole = spec_encode_entries(entries);
    if k == entries.len() {
        assert(entries.take(k) =~= entries);
        assert(whole.subrange(0, whole.len() as int) =~= whole);
    } else {
        let shorter = entries.drop_last();
        lemma_entries_prefix(shorter, k);
        assert(shorter.take(k) =~= entries.take(k));
        let part = spec_encode_entries(entries.take(k));
        assert(whole.subrange(0, part.len() as int) =~= spec_encode_entries(shorter).subrange(
            0,
            part.len() as int,
        ));
    }
}

/// Sealing keeps the ids of the headers and records the lengths of the
/// entries.
pub proof fn lemma_seal(headers: Seq<HeaderSpec>, entries: Seq<EntrySpec>)
    requires
        headers.len() == entries.len(),
        headers_valid(headers),
        entries_fit(entries),
    ensures
        headers_valid(spec_seal(headers, entries)),
        lengths_match(spec_seal(headers, entries), entries),
{
    let sealed = spec_seal(headers, entries);
    assert forall|i: int| 0 <= i < sealed.len() implies header_valid(#[trigger] sealed[i]) by {
        assert(header_valid(headers[i]));
    }
    assert forall|i: int| 0 <= i < sealed.len() implies (#[trigger] sealed[i]).length
        == spec_encode_entry(entries[i]).len() by {
        assert(spec_encode_entry(entries[i]).len() <= u32::MAX);
    }
}

/// A log that was read from an archive is paired: it has one entry for each
/// header, and each header's `length` is the byte length of its entry's
/// encoding.
pub proof fn lemma_read_revlog_is_paired(b: Seq<u8>, rev: i32)
    requires
        spec_get_anno_revlog(b, rev).is_ok(),
    ensures
        lengths_match(
            spec_get_anno_revlog(b, rev).unwrap().headers,
            spec_get_anno_revlog(b, rev).unwrap().entries,
        ),
        headers_valid(spec_get_anno_revlog(b, rev).unwrap().headers),
        entries_encodable(spec_get_anno_revlog(b, rev).unwrap().entries),
        spec_resolve_revision(rev, spec_get_anno_revlog(b, rev).unwrap().headers.len() as int)
            == Some(spec_get_anno_revlog(b, rev).unwrap().headers.len() - 1),
{
    let index = spec_read_index(b).unwrap();
    let from = index.anno_headers_offset as int;
    let to = index.anno_entries_offset as int;
    let count = (to - from) / (HEADER_SIZE as int);
    assert(HEADER_SIZE * count == to - from) by (nonlinear_arith)
        requires
            count == (to - from) / (HEADER_SIZE as int),
            (to - from) % (HEADER_SIZE as int) == 0,
            HEADER_SIZE == 81,
    ;
    assert(count >= 0) by (nonlinear_arith)
        requires
            HEADER_SIZE * count == to - from,
            to - from >= 0,
            HEADER_SIZE == 81,
    ;
    lemma_headers_read(b, from, count as nat);
    let all = spec_headers_in(b, from, to).unwrap();
    let target = spec_resolve_revision(rev, all.len() as int).unwrap();
    let headers = all.take(target + 1);
    assert forall|i: int| 0 <= i < headers.len() implies header_valid(#[trigger] headers[i]) by {
        assert(headers[i] == all[i]);
    }
    lemma_entries_read(b, to, headers);
}

/// Reading inverts writing: from the bytes of a written archive, the index
/// read is the layout, the descriptor and the training data are those that
/// were written, and the revision log has the headers, with the stored
/// lengths, and the entries that were written. Its region offsets are zero.
/// Asking for revision `rev` gives the log up to that revision. An archive
/// written without any revision is not read.
pub proof fn lemma_read_written(
    header: Seq<u8>,
    train: TrainingSpec,
    headers: Seq<HeaderSpec>,
    entries: Seq<EntrySpec>,
)
    requires
        spec_write_error(header, train, headers, entries).is_none(),
        train.kind == crate::container::format::DataType::Text ==> vstd::utf8::valid_utf8(
            train.payload,
        ),
        headers_valid(headers),
        entries_encodable(entries),
    ensures
        ({
            let b = spec_encode_mda(header, train, headers, entries);
            let layout = spec_layout(header, train, headers, entries);
            let written = spec_written_revlog(header, train, headers, entries);
            &&& spec_read_info(b) == Ok::<(MDAIndex, Seq<u8>), MdaError>((layout, header))
            &&& spec_extract_train(b) == Ok::<TrainingSpec, MdaError>(train)
            &&& headers.len() >= 1 ==> spec_get_anno_revlog(b, -1i32) == Ok::<RevlogSpec, MdaError>(
                RevlogSpec {
                    revlog_index: RevlogIndex { headers_offset: 0, entries_offset: 0 },
                    headers: written.headers,
                    entries,
                },
            )
            &&& headers.len() == 0 ==> forall|rev: i32| #[trigger]
                spec_get_anno_revlog(b, rev) == Err::<RevlogSpec, MdaError>(
                    MdaError::CorruptArchive(CorruptReason::EmptyHeaderRegion),
                )
            &&& forall|rev: i32|
                0 <= rev < headers.len() ==> #[trigger] spec_get_anno_revlog(b, rev) == Ok::<
                    RevlogSpec,
                    MdaError,
                >(
                    RevlogSpec {
                        revlog_index: RevlogIndex { headers_offset: 0, entries_offset: 0 },
                        headers: written.headers.take(rev + 1),
                        entries: entries.take(rev + 1),
                    },
                )
        }),
{
    let b = spec_encode_mda(header, train, headers, entries);
    let layout = spec_layout(header, train, headers, entries);
    let sealed = spec_seal(headers, entries);
    let index_bytes = spec_encode_index(layout);
    let train_bytes = spec_encode_training(train);
    let header_bytes = spec_encode_headers(sealed);
    let entry_bytes = spec_encode_entries(entries);
    let n = headers.len() as int;
    lemma_index_len(layout);
    lemma_seal(headers, entries);
    lemma_headers_len(sealed);
    assert(train.payload.len() <= train_bytes.len());
    lemma_decode_encode_training(train);
    let to = INDEX_SIZE + header.len();
    let aho = to + train_bytes.len();
    let aeo = aho + header_bytes.len();
    assert(b.len() == aeo + entry_bytes.len());
    assert(layout.train_data_offset == to);
    assert(layout.anno_headers_offset == aho);
    assert(layout.anno_entries_offset == aeo);
    assert(b.subrange(0, INDEX_SIZE as int) =~= index_bytes);
    assert(b.subrange(INDEX_SIZE as int, to) =~= header);
    assert(b.subrange(to, aho) =~= train_bytes);
    assert(b.subrange(aho, aeo) =~= header_bytes);
    assert(b.subrange(aeo, b.len() as int) =~= entry_bytes);
    lemma_index_written(b, layout);
    assert(index_in_range(layout, b.len() as int));
    assert(spec_read_index(b) == Ok::<MDAIndex, MdaError>(layout));

    lemma_headers_written(b, aho, sealed);
    assert((aeo - aho) % (HEADER_SIZE as int) == 0 && (aeo - aho) / (HEADER_SIZE as int) == n)
        by (nonlinear_arith)
        requires
            aeo - aho == HEADER_SIZE * n,
            HEADER_SIZE == 81,
            n >= 0,
    ;
    assert(spec_headers_in(b, aho, aeo) == Ok::<Seq<HeaderSpec>, MdaError>(sealed));

    assert forall|k: int| 1 <= k <= n implies #[trigger] spec_entries_at(b, aeo, sealed.take(k))
        == Ok::<(Seq<EntrySpec>, int), MdaError>(
        (entries.take(k), aeo + spec_encode_entries(entries.take(k)).len()),
    ) by {
        let some = entries.take(k);
        let part = spec_encode_entries(some);
        lemma_entries_prefix(entries, k);
        assert(b.subrange(aeo, aeo + part.len()) =~= entry_bytes.subrange(0, part.len() as int));
        assert forall|i: int| 0 <= i < some.len() implies crate::codec::entry::entry_encodable(
            #[trigger] some[i],
        ) by {
            assert(some[i] == entries[i]);
        }
        assert forall|i: int| 0 <= i < sealed.take(k).len() implies (#[trigger] sealed.take(
            k,
        )[i]).length == spec_encode_entry(some[i]).len() by {
            assert(sealed.take(k)[i] == sealed[i]);
            assert(some[i] == entries[i]);
        }
        lemma_entries_written(b, aeo, sealed.take(k), some);
    }
    if n >= 1 {
        assert(sealed.take(n) =~= sealed);
        assert(entries.take(n) =~= entries);
        assert(spec_resolve_revision(-1i32, n) == Some(n - 1));
        assert(spec_entries_at(b, aeo, sealed.take(n - 1 + 1)).is_ok());
    }
    assert forall|rev: i32| 0 <= rev < headers.len() implies #[trigger] spec_get_anno_revlog(b, rev)
        == Ok::<RevlogSpec, MdaError>(
        RevlogSpec {
            revlog_index: RevlogIndex { headers_offset: 0, entries_offset: 0 },
            headers: sealed.take(rev + 1),
            entries: entries.take(rev + 1),
        },
    ) by {
        assert(spec_resolve_revision(rev, n) == Some(rev as int));
        assert(spec_entries_at(b, aeo, sealed.take(rev + 1)).is_ok());
    }
}

/// Reading fewer revisions of an archive gives the first of the revisions
/// that reading more of them gives.
pub proof fn lemma_read_fewer(b: Seq<u8>, rev: i32)
    requires
        spec_get_anno_revlog(b, -1i32).is_ok(),
        0 <= rev < spec_get_anno_revlog(b, -1i32).unwrap().headers.len(),
    ensures
        spec_get_anno_revlog(b, rev) == Ok::<RevlogSpec, MdaError>(
            RevlogSpec {
                revlog_index: spec_get_anno_revlog(b, -1i32).unwrap().revlog_index,
                headers: spec_get_anno_revlog(b, -1i32).unwrap().headers.take(rev + 1),
                entries: spec_get_anno_revlog(b, -1i32).unwrap().entries.take(rev + 1),
            },
        ),
{
    let whole = spec_get_anno_revlog(b, -1i32).unwrap();
    let index = spec_read_index(b).unwrap();
    let all = spec_headers_in(
        b,
        index.anno_headers_offset as int,
        index.anno_entries_offset as int,
    ).unwrap();
    let pos = index.anno_entries_offset as int;
    let k = rev + 1;
    assert(all.take(all.len() - 1 + 1) =~= all);
    assert(whole.headers == all);
    lemma_entries_read(b, pos, all);
    let entries = whole.entries;
    let some = entries.take(k);
    let part = spec_encode_entries(some);
    lemma_entries_prefix(entries, k);
    assert(b.subrange(pos, pos + part.len()) =~= spec_encode_entries(entries).subrange(
        0,
        part.len() as int,
    ));
    assert forall|i: int| 0 <= i < some.len() implies crate::codec::entry::entry_encodable(
        #[trigger] some[i],
    ) by {
        assert(some[i] == entries[i]);
    }
    assert forall|i: int| 0 <= i < all.take(k).len() implies (#[trigger] all.take(k)[i]).length
        == spec_encode_entry(some[i]).len() by {
        assert(all.take(k)[i] == all[i]);
        assert(some[i] == entries[i]);
    }
    lemma_entries_written(b, pos, all.take(k), some);
    assert(spec_resolve_revision(rev, all.len() as int) == Some(rev as int));
}

/// Updating an archive persists its history. In the archive written by an
/// update, the latest annotation is the content that was appended, every
/// earlier revision is read as it was read before, and the training data
/// and the descriptor are the ones that the archive held.
pub proof fn lemma_update_keeps_history(b: Seq<u8>, content: Seq<u8>, block_size: int)
    requires
        block_size > 0,
        spec_update_anno(b, content, block_size).is_ok(),
        log_wf(
            spec_get_anno_revlog(b, -1i32).unwrap().headers,
            spec_get_anno_revlog(b, -1i32).unwrap().entries,
        ),
        spec_nodeid(NULLID@, NULLID@, content).len() == 20,
    ensures
        ({
            let updated = spec_update_anno(b, content, block_size).unwrap();
            let before = spec_get_anno_revlog(b, -1i32).unwrap();
            &&& spec_extract_anno(updated, -1i32) == Ok::<Seq<u8>, MdaError>(content)
            &&& spec_extract_anno(updated, before.entries.len() as i32) == Ok::<Seq<u8>, MdaError>(
                content,
            )
            &&& forall|rev: i32|
                0 <= rev < before.entries.len() ==> #[trigger] spec_extract_anno(updated, rev)
                    == spec_extract_anno(b, rev)
            &&& spec_extract_train(updated) == spec_extract_train(b)
            &&& spec_read_info(updated).is_ok()
            &&& spec_read_info(updated).unwrap().1 == spec_read_info(b).unwrap().1
            &&& spec_get_anno_revlog(updated, -1i32).is_ok()
            &&& spec_get_anno_revlog(updated, -1i32).unwrap().entries == spec_add(
                content,
                block_size,
                before.entries,
                before.headers,
            ).unwrap().1
        }),
{
    let before = spec_get_anno_revlog(b, -1i32).unwrap();
    let n = before.entries.len() as int;
    let log = spec_add(content, block_size, before.entries, before.headers).unwrap();
    let header = spec_read_info(b).unwrap().1;
    let train = spec_extract_train(b).unwrap();
    let updated = spec_update_anno(b, content, block_size).unwrap();
    assert(updated == spec_encode_mda(header, train, log.0, log.1));
    lemma_read_revlog_is_paired(b, -1i32);
    lemma_add_well_formed(content, block_size, before.entries, before.headers);
    lemma_next_entry_bounded(content, block_size, before.entries);
    let entry = spec_next_entry(content, block_size, before.entries);
    let next = spec_next_header(content, before.entries, before.headers);
    assert(before.entries[n - 1].id == n - 1);
    assert(header_valid(before.headers[n - 1]));
    assert(header_valid(next));
    assert(headers_valid(log.0)) by {
        assert forall|i: int| 0 <= i < log.0.len() implies header_valid(#[trigger] log.0[i]) by {
            if i < n {
                assert(log.0[i] == before.headers[i]);
            }
        }
    }
    assert(entries_encodable(log.1)) by {
        assert forall|i: int| 0 <= i < log.1.len() implies crate::codec::entry::entry_encodable(
            #[trigger] log.1[i],
        ) by {
            if i < n {
                assert(log.1[i] == before.entries[i]);
            }
        }
    }
    lemma_read_written(header, train, log.0, log.1);
    let after = spec_get_anno_revlog(updated, -1i32).unwrap();
    assert(after.entries == log.1);
    assert(log.1[n].id == n);
    assert(spec_reconstruct(-1i32, log.1) == Ok::<Seq<u8>, MdaError>(content));
    assert(spec_get_anno_revlog(updated, n as i32).unwrap().entries =~= log.1) by {
        assert(log.1.take(n + 1) =~= log.1);
    }
    assert(spec_reconstruct(n as i32, log.1) == Ok::<Seq<u8>, MdaError>(content));
    assert forall|rev: i32| 0 <= rev < n implies #[trigger] spec_extract_anno(updated, rev)
        == spec_extract_anno(b, rev) by {
        lemma_read_fewer(b, rev);
        assert(log.1.take(rev + 1) =~= before.entries.take(rev + 1));
    }
}

/// The regions of the archive `b` lie back to back: the descriptor starts
/// right after the index, and the entries of the whole revision log end
/// where the file ends.
pub open spec fn contiguous(b: Seq<u8>) -> bool {
    &&& spec_get_anno_revlog(b, -1i32).is_ok()
    &&& spec_extract_train(b).is_ok()
    &&& spec_read_index(b).unwrap().header_offset == INDEX_SIZE
    &&& spec_entries_at(
        b,
        spec_read_index(b).unwrap().anno_entries_offset as int,
        spec_get_anno_revlog(b, -1i32).unwrap().headers,
    ).unwrap().1 == b.len()
}

/// Writing inverts reading: an archive whose regions lie back to back is,
/// byte for byte, what is written from the parts that are read from it.
/// Writing leaves the headers and entries that were read as they are, and
/// sets the log's region offsets to those of the archive's index.
pub proof fn lemma_write_read(b: Seq<u8>)
    requires
        contiguous(b),
        b.len() <= usize::MAX,
    ensures
        ({
            let header = spec_read_info(b).unwrap().1;
            let train = spec_extract_train(b).unwrap();
            let revlog = spec_get_anno_revlog(b, -1i32).unwrap();
            let written = spec_written_revlog(header, train, revlog.headers, revlog.entries);
            &&& spec_write_error(header, train, revlog.headers, revlog.entries).is_none()
            &&& spec_encode_mda(header, train, revlog.headers, revlog.entries) == b
            &&& written.headers == revlog.headers
            &&& written.entries == revlog.entries
            &&& written.revlog_index.headers_offset == spec_read_index(b).unwrap().anno_headers_offset
            &&& written.revlog_index.entries_offset == spec_read_index(b).unwrap().anno_entries_offset
        }),
{
    let index = spec_read_index(b).unwrap();
    let header = spec_read_info(b).unwrap().1;
    let train = spec_extract_train(b).unwrap();
    let revlog = spec_get_anno_revlog(b, -1i32).unwrap();
    let to = index.train_data_offset as int;
    let aho = index.anno_headers_offset as int;
    let aeo = index.anno_entries_offset as int;
    let count = (aeo - aho) / (HEADER_SIZE as int);
    assert(HEADER_SIZE * count == aeo - aho && count >= 0) by (nonlinear_arith)
        requires
            count == (aeo - aho) / (HEADER_SIZE as int),
            (aeo - aho) % (HEADER_SIZE as int) == 0,
            aeo - aho >= 0,
            HEADER_SIZE == 81,
    ;
    let all = spec_headers_in(b, aho, aeo).unwrap();
    assert(all.take(all.len() - 1 + 1) =~= all);
    assert(revlog.headers == all);
    lemma_index_read(b);
    lemma_index_len(index);
    lemma_encode_decode_training(b.subrange(to, aho));
    lemma_headers_stand(b, aho, count as nat);
    lemma_headers_len(all);
    lemma_entries_read(b, aeo, all);
    let sealed = spec_seal(all, revlog.entries);
    assert(sealed =~= all);
    let header_bytes = spec_encode_headers(all);
    let entry_bytes = spec_encode_entries(revlog.entries);
    assert(b.subrange(aho, aeo) == header_bytes);
    assert(b.subrange(aeo, b.len() as int) == entry_bytes);
    let body = spec_encode_body(header, train, all, revlog.entries);
    assert(body =~= b.subrange(INDEX_SIZE as int, b.len() as int));
    assert(spec_layout(header, train, all, revlog.entries) == index);
    assert(spec_encode_mda(header, train, all, revlog.entries) =~= b);
    assert(entries_fit(revlog.entries)) by {
        assert forall|i: int| 0 <= i < revlog.entries.len() implies spec_encode_entry(
            #[trigger] revlog.entries[i],
        ).len() <= u32::MAX by {
            assert(all[i].length == spec_encode_entry(revlog.entries[i]).len());
        }
    }
}

/// Updating an archive with its own latest annotation appends one revision
/// and stores nothing new: the entry of the new revision brings no blocks,
/// its index names blocks that the pool already held, the earlier entries
/// are stored as they were, and the latest annotation is still the same.
pub proof fn lemma_update_with_latest(b: Seq<u8>, block_size: int)
    requires
        block_size > 0,
        spec_extract_anno(b, -1i32).is_ok(),
        log_wf(
            spec_get_anno_revlog(b, -1i32).unwrap().headers,
            spec_get_anno_revlog(b, -1i32).unwrap().entries,
        ),
        aligned(spec_get_anno_revlog(b, -1i32).unwrap().entries, block_size),
        spec_update_anno(b, spec_extract_anno(b, -1i32).unwrap(), block_size).is_ok(),
        spec_nodeid(NULLID@, NULLID@, spec_extract_anno(b, -1i32).unwrap()).len() == 20,
    ensures
        ({
            let content = spec_extract_anno(b, -1i32).unwrap();
            let updated = spec_update_anno(b, content, block_size).unwrap();
            let before = spec_get_anno_revlog(b, -1i32).unwrap().entries;
            let after = spec_get_anno_revlog(updated, -1i32).unwrap().entries;
            &&& after.len() == before.len() + 1
            &&& after.take(before.len() as int) == before
            &&& after.last().blocks.len() == 0
            &&& spec_resolve(after.last().index, spec_flat(before)).is_some()
            &&& spec_extract_anno(updated, -1i32) == Ok::<Seq<u8>, MdaError>(content)
        }),
{
    let content = spec_extract_anno(b, -1i32).unwrap();
    let before = spec_get_anno_revlog(b, -1i32).unwrap();
    let n = before.entries.len() as int;
    assert(before.entries[n - 1].id == n - 1);
    assert(content == spec_payload(before.entries, n - 1));
    lemma_add_latest_again(block_size, before.entries, before.headers);
    lemma_update_keeps_history(b, content, block_size);
}

} // verus!
