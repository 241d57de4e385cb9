//! Writing an archive as one byte string, and reading its parts back.

use crate::container::format::{
    decode_training, read_index, spec_decode_training, spec_encode_index, spec_encode_training,
    spec_read_index, write_index, write_training, Header, MDAIndex, TrainingData, TrainingSpec,
    INDEX_SIZE,
};
use crate::container::regions::{
    entries_fit, read_entries, read_headers, seal_entries, spec_encode_entries,
    spec_encode_headers, spec_entries_at, spec_headers_in, spec_seal, write_headers,
};
use crate::block::BLOCK_SIZE;
use crate::error::{CorruptReason, MdaError};
use crate::revlog::model::{Entry, EntrySpec, HeaderSpec, Revlog, RevlogIndex, RevlogSpec};
use crate::revlog::ops::{
    reconstruct, resolve_revision, spec_add, spec_reconstruct, spec_resolve_revision,
};
use vstd::prelude::*;
use vstd::slice::{slice_subrange, slice_to_vec};

verus! {

/// What follows the index in an archive: the descriptor, the training
/// data, the header records and the entries, in this order.
pub open spec fn spec_encode_body(
    header: Seq<u8>,
    train: TrainingSpec,
    headers: Seq<HeaderSpec>,
    entries: Seq<EntrySpec>,
) -> Seq<u8> {
    header + spec_encode_training(train) + spec_encode_headers(spec_seal(headers, entries))
        + spec_encode_entries(entries)
}

/// The offsets of an archive whose regions are laid out back to back after
/// the index.
pub open spec fn spec_layout(
    header: Seq<u8>,
    train: TrainingSpec,
    headers: Seq<HeaderSpec>,
    entries: Seq<EntrySpec>,
) -> MDAIndex {
    let train_data_offset = INDEX_SIZE + header.len();
    let anno_headers_offset = train_data_offset + spec_encode_training(train).len();
    let anno_entries_offset = anno_headers_offset + spec_encode_headers(
        spec_seal(headers, entries),
    ).len();
    MDAIndex {
        header_offset: INDEX_SIZE as u64,
        train_data_offset: train_data_offset as u64,
        anno_headers_offset: anno_headers_offset as u64,
        anno_entries_offset: anno_entries_offset as u64,
    }
}

/// The bytes of an archive: the index, then the body.
pub open spec fn spec_encode_mda(
    header: Seq<u8>,
    train: TrainingSpec,
    headers: Seq<HeaderSpec>,
    entries: Seq<EntrySpec>,
) -> Seq<u8> {
    spec_encode_index(spec_layout(header, train, headers, entries)) + spec_encode_body(
        header,
        train,
        headers,
        entries,
    )
}

/// Why an archive cannot be written, if it cannot.
pub open spec fn spec_write_error(
    header: Seq<u8>,
    train: TrainingSpec,
    headers: Seq<HeaderSpec>,
    entries: Seq<EntrySpec>,
) -> Option<MdaError> {
    if headers.len() != entries.len() {
        Some(MdaError::InvariantViolated)
    } else if !entries_fit(entries) || INDEX_SIZE + spec_encode_body(
        header,
        train,
        headers,
        entries,
    ).len() > usize::MAX {
        Some(MdaError::LimitExceeded)
    } else {
        None
    }
}

/// The revision log as it stands after it was written: the headers carry
/// the lengths of the encoded entries, and the log knows where its two
/// regions lie.
pub open spec fn spec_written_revlog(
    header: Seq<u8>,
    train: TrainingSpec,
    headers: Seq<HeaderSpec>,
    entries: Seq<EntrySpec>,
) -> RevlogSpec {
    let layout = spec_layout(header, train, headers, entries);
    RevlogSpec {
        revlog_index: RevlogIndex {
            headers_offset: layout.anno_headers_offset,
            entries_offset: layout.anno_entries_offset,
        },
        headers: spec_seal(headers, entries),
        entries,
    }
}

/// The index and the descriptor of the archive `b`.
pub open spec fn spec_read_info(b: Seq<u8>) -> Result<(MDAIndex, Seq<u8>), MdaError> {
    match spec_read_index(b) {
        Ok(index) => Ok(
            (index, b.subrange(index.header_offset as int, index.train_data_offset as int)),
        ),
        Err(e) => Err(e),
    }
}

/// The training data of the archive `b`, decoded from the region that the
/// index bounds.
pub open spec fn spec_extract_train(b: Seq<u8>) -> Result<TrainingSpec, MdaError> {
    match spec_read_index(b) {
        Ok(index) => spec_decode_training(
            b.subrange(index.train_data_offset as int, index.anno_headers_offset as int),
        ),
        Err(e) => Err(e),
    }
}

/// The revision log of the archive `b` up to revision `rev`, where `-1`
/// asks for all of it. An archive without a header record is corrupt. The
/// region offsets of the log that is read are zero: only writing sets them.
pub open spec fn spec_get_anno_revlog(b: Seq<u8>, rev: i32) -> Result<RevlogSpec, MdaError> {
    match spec_read_index(b) {
        Err(e) => Err(e),
        Ok(index) => match spec_headers_in(
            b,
            index.anno_headers_offset as int,
            index.anno_entries_offset as int,
        ) {
            Err(e) => Err(e),
            Ok(all) => if all.len() == 0 {
                Err(MdaError::CorruptArchive(CorruptReason::EmptyHeaderRegion))
            } else {
                match spec_resolve_revision(rev, all.len() as int) {
                    None => Err(MdaError::RevisionNotFound),
                    Some(target) => {
                        let headers = all.take(target + 1);
                        match spec_entries_at(b, index.anno_entries_offset as int, headers) {
                            Err(e) => Err(e),
                            Ok((entries, end)) => Ok(
                                RevlogSpec {
                                    revlog_index: RevlogIndex {
                                        headers_offset: 0,
                                        entries_offset: 0,
                                    },
                                    headers,
                                    entries,
                                },
                            ),
                        }
                    },
                }
            },
        },
    }
}

/// The annotation of the archive `b` at revision `rev`.
pub open spec fn spec_extract_anno(b: Seq<u8>, rev: i32) -> Result<Seq<u8>, MdaError> {
    match spec_get_anno_revlog(b, rev) {
        Ok(revlog) => spec_reconstruct(rev, revlog.entries),
        Err(e) => Err(e),
    }
}

/// The training data and the annotation at revision `rev` of the archive
/// `b`. A failure to read the annotation is reported before one to read the
/// training data.
pub open spec fn spec_extract_data(b: Seq<u8>, rev: i32) -> Result<(TrainingSpec, Seq<u8>), MdaError> {
    match spec_extract_anno(b, rev) {
        Err(e) => Err(e),
        Ok(anno) => match spec_extract_train(b) {
            Err(e) => Err(e),
            Ok(train) => Ok((train, anno)),
        },
    }
}

/// The archive `b` with the revision log `headers`, `entries` in place of
/// its own.
pub open spec fn spec_update_revlog(b: Seq<u8>, headers: Seq<HeaderSpec>, entries: Seq<EntrySpec>) -> Result<
    Seq<u8>,
    MdaError,
> {
    match spec_read_info(b) {
        Err(e) => Err(e),
        Ok((index, header)) => match spec_extract_train(b) {
            Err(e) => Err(e),
            Ok(train) => match spec_write_error(header, train, headers, entries) {
                Some(e) => Err(e),
                None => Ok(spec_encode_mda(header, train, headers, entries)),
            },
        },
    }
}

/// The archive `b` after `content` was appended to its annotation history
/// as a new revision, split at `block_size`.
pub open spec fn spec_update_anno(b: Seq<u8>, content: Seq<u8>, block_size: int) -> Result<
    Seq<u8>,
    MdaError,
> {
    match spec_get_anno_revlog(b, -1i32) {
        Err(e) => Err(e),
        Ok(revlog) => match spec_add(content, block_size, revlog.entries, revlog.headers) {
            Err(e) => Err(e),
            Ok(log) => spec_update_revlog(b, log.0, log.1),
        },
    }
}

/// Lays out an archive: the index, the descriptor, the training data, the
/// header records and the entries, back to back. The log's headers receive
/// the byte lengths of their entries, and the log's region offsets are set
/// to where its regions lie. On failure the log is left as it was.
pub fn write_data_to_mda(header: &Header, train_data: &TrainingData, revlog: &mut Revlog) -> (res: Result<
    Vec<u8>,
    MdaError,
>)
    ensures
        match spec_write_error(
            header@,
            train_data@,
            old(revlog).headers.deep_view(),
            old(revlog).entries.deep_view(),
        ) {
            Some(e) => res == Err::<Vec<u8>, MdaError>(e) && *final(revlog) == *old(revlog),
            None => res.is_ok() && res.unwrap()@ == spec_encode_mda(
                header@,
                train_data@,
                old(revlog).headers.deep_view(),
                old(revlog).entries.deep_view(),
            ) && final(revlog)@ == spec_written_revlog(
                header@,
                train_data@,
                old(revlog).headers.deep_view(),
                old(revlog).entries.deep_view(),
            ),
        },
{
    let ghost headers = revlog.headers.deep_view();
    let ghost entries = revlog.entries.deep_view();
    let (sealed, entries_region) = match seal_entries(&revlog.headers, &revlog.entries) {
        Ok(pair) => pair,
        Err(e) => {
            return Err(e);
        },
    };
    let mut body: Vec<u8> = Vec::new();
    body.extend_from_slice(header.record.as_slice());
    let train_at: usize = body.len();
    write_training(&mut body, train_data);
    let headers_at: usize = body.len();
    write_headers(&mut body, &sealed);
    let entries_at: usize = body.len();
    body.extend_from_slice(entries_region.as_slice());
    assert(body@ =~= spec_encode_body(header@, train_data@, headers, entries));
    if body.len() > usize::MAX - INDEX_SIZE {
        return Err(MdaError::LimitExceeded);
    }
    let index = MDAIndex {
        header_offset: INDEX_SIZE as u64,
        train_data_offset: (INDEX_SIZE + train_at) as u64,
        anno_headers_offset: (INDEX_SIZE + headers_at) as u64,
        anno_entries_offset: (INDEX_SIZE + entries_at) as u64,
    };
    assert(index == spec_layout(header@, train_data@, headers, entries));
    let mut out: Vec<u8> = Vec::new();
    write_index(&mut out, &index);
    out.extend_from_slice(body.as_slice());
    assert(out@ =~= spec_encode_mda(header@, train_data@, headers, entries));
    revlog.headers = sealed;
    revlog.revlog_index = RevlogIndex {
        headers_offset: index.anno_headers_offset,
        entries_offset: index.anno_entries_offset,
    };
    Ok(out)
}

/// Reads the index and the descriptor of an archive.
pub fn read_info_from_mda(bytes: &[u8]) -> (res: Result<(MDAIndex, Header), MdaError>)
    ensures
        match spec_read_info(bytes@) {
            Ok((index, record)) => res.is_ok() && res.unwrap().0 == index && res.unwrap().1@
                == record,
            Err(e) => res matches Err(x) && x == e,
        },
{
    let index = match read_index(bytes) {
        Ok(index) => index,
        Err(e) => {
            return Err(e);
        },
    };
    let record = slice_to_vec(
        slice_subrange(bytes, index.header_offset as usize, index.train_data_offset as usize),
    );
    Ok((index, Header { record }))
}

/// Reads the training data of an archive.
pub fn extract_train_from_mda(bytes: &[u8]) -> (res: Result<TrainingData, MdaError>)
    ensures
        match spec_extract_train(bytes@) {
            Ok(train) => res.is_ok() && res.unwrap()@ == train,
            Err(e) => res matches Err(x) && x == e,
        },
{
    let index = match read_index(bytes) {
        Ok(index) => index,
        Err(e) => {
            return Err(e);
        },
    };
    decode_training(
        slice_subrange(bytes, index.train_data_offset as usize, index.anno_headers_offset as usize),
    )
}

/// Reads the revision log of an archive up to revision `rev`; `-1` asks
/// for all of it. The log is returned with its region offsets at zero.
pub fn get_anno_revlog_from_mda(bytes: &[u8], rev: i32) -> (res: Result<Revlog, MdaError>)
    ensures
        match spec_get_anno_revlog(bytes@, rev) {
            Ok(revlog) => res.is_ok() && res.unwrap()@ == revlog,
            Err(e) => res matches Err(x) && x == e,
        },
{
    let index = match read_index(bytes) {
        Ok(index) => index,
        Err(e) => {
            return Err(e);
        },
    };
    let mut headers = match read_headers(
        bytes,
        index.anno_headers_offset as usize,
        index.anno_entries_offset as usize,
    ) {
        Ok(headers) => headers,
        Err(e) => {
            return Err(e);
        },
    };
    if headers.len() == 0 {
        return Err(MdaError::CorruptArchive(CorruptReason::EmptyHeaderRegion));
    }
    let target = match resolve_revision(rev, headers.len()) {
        Some(target) => target,
        None => {
            return Err(MdaError::RevisionNotFound);
        },
    };
    let ghost all = headers.deep_view();
    headers.truncate(target + 1);
    assert(headers.deep_view() =~= all.take(target + 1));
    let entries = match read_entries(bytes, index.anno_entries_offset as usize, &headers) {
        Ok(entries) => entries,
        Err(e) => {
            return Err(e);
        },
    };
    Ok(Revlog::new(headers, entries))
}

/// Rebuilds the annotation of an archive at revision `rev`.
pub fn extract_anno_from_mda(bytes: &[u8], rev: i32) -> (res: Result<Vec<u8>, MdaError>)
    ensures
        match spec_extract_anno(bytes@, rev) {
            Ok(anno) => res.is_ok() && res.unwrap()@ == anno,
            Err(e) => res matches Err(x) && x == e,
        },
{
    match get_anno_revlog_from_mda(bytes, rev) {
        Ok(revlog) => reconstruct(rev, &revlog.entries),
        Err(e) => Err(e),
    }
}

/// Reads the training data of an archive and rebuilds its annotation at
/// revision `rev`.
pub fn extract_data_from_mda(bytes: &[u8], rev: i32) -> (res: Result<
    (TrainingData, Vec<u8>),
    MdaError,
>)
    ensures
        match spec_extract_data(bytes@, rev) {
            Ok((train, anno)) => res.is_ok() && res.unwrap().0@ == train && res.unwrap().1@ == anno,
            Err(e) => res matches Err(x) && x == e,
        },
{
    let anno = match extract_anno_from_mda(bytes, rev) {
        Ok(anno) => anno,
        Err(e) => {
            return Err(e);
        },
    };
    match extract_train_from_mda(bytes) {
        Ok(train) => Ok((train, anno)),
        Err(e) => Err(e),
    }
}

/// Writes the archive anew with `revlog` in place of its revision log; the
/// descriptor and the training data are taken over as they are.
pub fn update_revlog(bytes: &[u8], revlog: &mut Revlog) -> (res: Result<Vec<u8>, MdaError>)
    ensures
        match spec_update_revlog(
            bytes@,
            old(revlog).headers.deep_view(),
            old(revlog).entries.deep_view(),
        ) {
            Ok(out) => res.is_ok() && res.unwrap()@ == out,
            Err(e) => res matches Err(x) && x == e,
        },
{
    let (_index, header) = match read_info_from_mda(bytes) {
        Ok(pair) => pair,
        Err(e) => {
            return Err(e);
        },
    };
    let train_data = match extract_train_from_mda(bytes) {
        Ok(train_data) => train_data,
        Err(e) => {
            return Err(e);
        },
    };
    write_data_to_mda(&header, &train_data, revlog)
}

/// Appends `content` to the annotation history of an archive, split at the
/// default block size, and returns the bytes of the archive written anew.
pub fn update_anno_in_mda(bytes: &[u8], content: &[u8]) -> (res: Result<Vec<u8>, MdaError>)
    ensures
        match spec_update_anno(bytes@, content@, BLOCK_SIZE as int) {
            Ok(out) => res.is_ok() && res.unwrap()@ == out,
            Err(e) => res matches Err(x) && x == e,
        },
{
    update_anno_with_block_size(bytes, content, BLOCK_SIZE)
}

/// Appends `content` to the annotation history of an archive, split into
/// blocks of `block_size` bytes, and returns the bytes of the archive
/// written anew.
pub fn update_anno_with_block_size(bytes: &[u8], content: &[u8], block_size: usize) -> (res: Result<
    Vec<u8>,
    MdaError,
>)
    requires
        block_size > 0,
    ensures
        match spec_update_anno(bytes@, content@, block_size as int) {
            Ok(out) => res.is_ok() && res.unwrap()@ == out,
            Err(e) => res matches Err(x) && x == e,
        },
{
    let revlog = match get_anno_revlog_from_mda(bytes, -1) {
        Ok(revlog) => revlog,
        Err(e) => {
            return Err(e);
        },
    };
    let (headers, entries) = match Entry::add_with_block_size(
        content,
        revlog.entries,
        revlog.headers,
        block_size,
    ) {
        Ok(pair) => pair,
        Err(e) => {
            return Err(e);
        },
    };
    let mut revlog = Revlog::new(headers, entries);
    update_revlog(bytes, &mut revlog)
}

} // verus!
