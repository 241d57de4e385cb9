//! Creating a revision log, appending revisions and rebuilding payloads.

use crate::block::{
    block_count, spec_numbering, spec_split, split_data_into_blocks, BlockSpec, DataBlock, BLOCK_SIZE,
};
use crate::error::MdaError;
use crate::hash::{compute_nodeid, spec_nodeid, NULLID};
use crate::revlog::laws::{
    aligned, appended, lemma_add_appends, lemma_add_well_formed, lemma_init_well_formed, log_wf,
};
use crate::revlog::model::{
    first_entry_with_id, lemma_first_entry_with_id, spec_concat, spec_extract_index, spec_last_number, spec_new_blocks,
    spec_pool, spec_renumber, spec_resolve, Entry, EntrySpec, HeaderSpec, RevlogHeader,
};
use crate::revlog::pool::{
    add_to_block_list, combine_data_blocks, extract_index, find_different_blocks,
    find_index_by_id, get_data_blocks_by_index, get_data_blocks_up_to_id,
};
use vstd::prelude::*;

verus! {

/// The header that the log writes for a revision with payload `content`:
/// the reserved fields are zero, the second parent is the null id, and the
/// node id is taken over null parents.
pub open spec fn spec_header_for(rev: u8, linkrev: i32, p1rev: Seq<u8>, content: Seq<u8>) -> HeaderSpec {
    HeaderSpec {
        rev,
        offset: 0,
        length: content.len() as u32,
        baserev: 0,
        linkrev,
        p1rev,
        p2rev: NULLID@,
        nodeid: spec_nodeid(NULLID@, NULLID@, content),
    }
}

/// The entry of the first revision: every block of the split, numbered from
/// zero.
pub open spec fn spec_first_entry(content: Seq<u8>, block_size: int) -> EntrySpec {
    EntrySpec {
        id: 0,
        index: spec_numbering(block_count(content.len() as int, block_size)),
        blocks: spec_split(content, block_size),
    }
}

/// The header of the first revision.
pub open spec fn spec_first_header(content: Seq<u8>) -> HeaderSpec {
    spec_header_for(0, 0, NULLID@, content)
}

/// The blocks that a revision with payload `content` adds to the pool of
/// `entries`, carrying their fresh numbers.
pub open spec fn spec_fresh_blocks(content: Seq<u8>, block_size: int, entries: Seq<EntrySpec>) -> Seq<
    BlockSpec,
> {
    let pool = spec_pool(entries, entries.last().id);
    spec_renumber(spec_last_number(pool), spec_new_blocks(pool, spec_split(content, block_size)))
}

/// The entry appended for a revision with payload `content`.
pub open spec fn spec_next_entry(content: Seq<u8>, block_size: int, entries: Seq<EntrySpec>) -> EntrySpec {
    let pool = spec_pool(entries, entries.last().id);
    let fresh = spec_fresh_blocks(content, block_size, entries);
    EntrySpec {
        id: (entries.last().id + 1) as u8,
        index: spec_extract_index(spec_split(content, block_size), pool + fresh),
        blocks: fresh,
    }
}

/// The header appended for a revision with payload `content`. Its first
/// parent is the node id of revision zero when it follows revision zero,
/// and otherwise the first parent of the revision it follows.
pub open spec fn spec_next_header(content: Seq<u8>, entries: Seq<EntrySpec>, headers: Seq<HeaderSpec>) -> HeaderSpec {
    let last_id = entries.last().id;
    let previous = headers[last_id as int];
    spec_header_for(
        (last_id + 1) as u8,
        last_id as i32,
        if last_id == 0 {
            previous.nodeid
        } else {
            previous.p1rev
        },
        content,
    )
}

/// Why a revision with payload `content` cannot be appended, if it cannot.
pub open spec fn spec_add_error(
    content: Seq<u8>,
    block_size: int,
    entries: Seq<EntrySpec>,
    headers: Seq<HeaderSpec>,
) -> Option<MdaError> {
    if entries.len() == 0 || headers.len() <= entries.last().id {
        Some(MdaError::InvariantViolated)
    } else if entries.last().id == u8::MAX || content.len() > u32::MAX {
        Some(MdaError::LimitExceeded)
    } else {
        let pool = spec_pool(entries, entries.last().id);
        let fresh = spec_new_blocks(pool, spec_split(content, block_size));
        if spec_last_number(pool) + fresh.len() > usize::MAX {
            Some(MdaError::LimitExceeded)
        } else {
            None
        }
    }
}

/// The log after appending a revision with payload `content`.
pub open spec fn spec_add(
    content: Seq<u8>,
    block_size: int,
    entries: Seq<EntrySpec>,
    headers: Seq<HeaderSpec>,
) -> Result<(Seq<HeaderSpec>, Seq<EntrySpec>), MdaError> {
    match spec_add_error(content, block_size, entries, headers) {
        Some(e) => Err(e),
        None => Ok(
            (
                headers.push(spec_next_header(content, entries, headers)),
                entries.push(spec_next_entry(content, block_size, entries)),
            ),
        ),
    }
}

/// The payload of the revision whose entry has the id `id`.
pub open spec fn spec_full_data(id: u8, entries: Seq<EntrySpec>) -> Result<Seq<u8>, MdaError> {
    match first_entry_with_id(entries, id) {
        None => Err(MdaError::RevisionNotFound),
        Some(k) => match spec_resolve(entries[k].index, spec_pool(entries, id)) {
            None => Err(MdaError::InvariantViolated),
            Some(blocks) => Ok(spec_concat(blocks)),
        },
    }
}

/// The revision that `rev` asks for: `-1` stands for the latest one.
pub open spec fn spec_target(rev: i32, count: int) -> int {
    if rev == -1 {
        count - 1
    } else {
        rev as int
    }
}

/// The payload of revision `rev`, where `-1` asks for the latest revision.
pub open spec fn spec_reconstruct(rev: i32, entries: Seq<EntrySpec>) -> Result<Seq<u8>, MdaError> {
    let target = spec_target(rev, entries.len() as int);
    if target < 0 || target >= entries.len() {
        Err(MdaError::RevisionNotFound)
    } else if target > u8::MAX {
        Err(MdaError::InvariantViolated)
    } else {
        match spec_full_data(target as u8, entries) {
            Err(MdaError::RevisionNotFound) => Err(MdaError::InvariantViolated),
            other => other,
        }
    }
}

impl Entry {
    /// Starts a revision log with `content` as revision zero, split at the
    /// default block size.
    pub fn init(content: &[u8]) -> (res: (Vec<RevlogHeader>, Vec<Entry>))
        requires
            content@.len() <= u32::MAX,
        ensures
            res.0.deep_view() == seq![spec_first_header(content@)],
            res.1.deep_view() == seq![spec_first_entry(content@, BLOCK_SIZE as int)],
            res.0.len() == 1 && res.1.len() == 1,
            res.0[0].rev == 0 && res.1[0].id == 0,
            res.0[0].length == content@.len(),
            res.0[0].nodeid@ == spec_nodeid(NULLID@, NULLID@, content@),
            log_wf(res.0.deep_view(), res.1.deep_view()),
            aligned(res.1.deep_view(), BLOCK_SIZE as int),
    {
        Entry::init_with_block_size(content, BLOCK_SIZE)
    }

    /// Starts a revision log with `content` as revision zero, split into
    /// blocks of `block_size` bytes.
    pub fn init_with_block_size(content: &[u8], block_size: usize) -> (res: (
        Vec<RevlogHeader>,
        Vec<Entry>,
    ))
        requires
            block_size > 0,
            content@.len() <= u32::MAX,
        ensures
            res.0.deep_view() == seq![spec_first_header(content@)],
            res.1.deep_view() == seq![spec_first_entry(content@, block_size as int)],
            res.0.len() == 1 && res.1.len() == 1,
            res.0[0].rev == 0 && res.1[0].id == 0,
            res.0[0].length == content@.len(),
            res.0[0].nodeid@ == spec_nodeid(NULLID@, NULLID@, content@),
            log_wf(res.0.deep_view(), res.1.deep_view()),
            aligned(res.1.deep_view(), block_size as int),
    {
        let (blocks, data_indices) = split_data_into_blocks(content, block_size);
        let entry = Entry::new(0, data_indices, blocks);
        let mut entries: Vec<Entry> = Vec::new();
        entries.push(entry);
        let nodeid = compute_nodeid(&NULLID, &NULLID, content);
        let revlog_header = RevlogHeader::new(
            0,
            0,
            content.len() as u32,
            0,
            0,
            NULLID,
            NULLID,
            nodeid,
        );
        let mut headers: Vec<RevlogHeader> = Vec::new();
        headers.push(revlog_header);
        proof {
            assert(entries.deep_view() =~= seq![spec_first_entry(content@, block_size as int)]);
            assert(headers.deep_view() =~= seq![spec_first_header(content@)]);
            lemma_init_well_formed(content@, block_size as int);
        }
        (headers, entries)
    }

    /// Appends a revision with payload `content`, split at the default
    /// block size.
    pub fn add(content: &[u8], record_table: Vec<Entry>, headers: Vec<RevlogHeader>) -> (res: Result<
        (Vec<RevlogHeader>, Vec<Entry>),
        MdaError,
    >)
        ensures
            match spec_add(content@, BLOCK_SIZE as int, record_table.deep_view(), headers.deep_view()) {
                Ok(log) => res.is_ok() && res.unwrap().0.deep_view() == log.0
                    && res.unwrap().1.deep_view() == log.1,
                Err(e) => res matches Err(x) && x == e,
            },
            res.is_ok() ==> appended(
                content@,
                headers.deep_view(),
                record_table.deep_view(),
                res.unwrap().0.deep_view(),
                res.unwrap().1.deep_view(),
            ),
            res.is_ok() && log_wf(headers.deep_view(), record_table.deep_view()) ==> log_wf(
                res.unwrap().0.deep_view(),
                res.unwrap().1.deep_view(),
            ),
            res.is_ok() && log_wf(headers.deep_view(), record_table.deep_view()) && aligned(
                record_table.deep_view(),
                BLOCK_SIZE as int,
            ) ==> aligned(res.unwrap().1.deep_view(), BLOCK_SIZE as int),
    {
        Entry::add_with_block_size(content, record_table, headers, BLOCK_SIZE)
    }

    /// Appends a revision with payload `content`, split into blocks of
    /// `block_size` bytes. Blocks whose content the pool already holds are
    /// referenced, not stored again.
    pub fn add_with_block_size(
        content: &[u8],
        record_table: Vec<Entry>,
        headers: Vec<RevlogHeader>,
        block_size: usize,
    ) -> (res: Result<(Vec<RevlogHeader>, Vec<Entry>), MdaError>)
        requires
            block_size > 0,
        ensures
            match spec_add(content@, block_size as int, record_table.deep_view(), headers.deep_view()) {
                Ok(log) => res.is_ok() && res.unwrap().0.deep_view() == log.0
                    && res.unwrap().1.deep_view() == log.1,
                Err(e) => res matches Err(x) && x == e,
            },
            res.is_ok() ==> appended(
                content@,
                headers.deep_view(),
                record_table.deep_view(),
                res.unwrap().0.deep_view(),
                res.unwrap().1.deep_view(),
            ),
            res.is_ok() && log_wf(headers.deep_view(), record_table.deep_view()) ==> log_wf(
                res.unwrap().0.deep_view(),
                res.unwrap().1.deep_view(),
            ),
            res.is_ok() && log_wf(headers.deep_view(), record_table.deep_view()) && aligned(
                record_table.deep_view(),
                block_size as int,
            ) ==> aligned(res.unwrap().1.deep_view(), block_size as int),
    {
        let ghost old_entries = record_table.deep_view();
        let ghost old_headers = headers.deep_view();
        if record_table.len() == 0 {
            return Err(MdaError::InvariantViolated);
        }
        let last_id: u8 = record_table[record_table.len() - 1].id;
        assert(old_entries.last().id == last_id);
        if headers.len() <= last_id as usize {
            return Err(MdaError::InvariantViolated);
        }
        if last_id == u8::MAX || content.len() > u32::MAX as usize {
            return Err(MdaError::LimitExceeded);
        }
        let previous = &headers[last_id as usize];
        let last_p1: [u8; 20] = if last_id == 0 {
            previous.nodeid
        } else {
            previous.p1rev
        };
        assert(old_headers[last_id as int] == previous@);
        let current_id: u8 = last_id + 1;
        let (current_data_blocks, _data_indices) = split_data_into_blocks(content, block_size);
        let different_blocks = find_different_blocks(last_id, &record_table, content, block_size);
        let block_list = get_data_blocks_up_to_id(last_id, &record_table);
        let pool_len: usize = block_list.len();
        let ghost pool = block_list.deep_view();
        let (records, _diff) = match add_to_block_list(block_list, &different_blocks) {
            Ok(pair) => pair,
            Err(e) => {
                return Err(e);
            },
        };
        let ghost fresh = spec_fresh_blocks(content@, block_size as int, old_entries);
        assert(records.deep_view() == pool + fresh);
        let mut diff_blocks: Vec<DataBlock> = Vec::new();
        let mut i: usize = pool_len;
        assert(diff_blocks.deep_view() =~= fresh.take(0));
        while i < records.len()
            invariant
                pool_len <= i <= records.len(),
                pool_len == pool.len(),
                records.deep_view() == pool + fresh,
                diff_blocks.deep_view() == fresh.take(i - pool_len),
            decreases records.len() - i,
        {
            let ghost before = diff_blocks.deep_view();
            diff_blocks.push(records[i].clone());
            assert(diff_blocks.deep_view() =~= before.push(records.deep_view()[i as int]));
            assert(records.deep_view().len() == records.len());
            assert((pool + fresh).len() == pool.len() + fresh.len());
            assert((pool + fresh)[i as int] == fresh[i - pool_len]);
            assert(records.deep_view()[i as int] == fresh[i - pool_len]);
            assert(diff_blocks.deep_view() =~= fresh.take(i + 1 - pool_len));
            i = i + 1;
        }
        assert(fresh.take(i - pool_len) =~= fresh);
        let matching_block_numbers = extract_index(&current_data_blocks, &records);
        let nodeid = compute_nodeid(&NULLID, &NULLID, content);
        let entry = Entry { id: current_id, index: matching_block_numbers, blocks: diff_blocks };
        assert(entry@ == spec_next_entry(content@, block_size as int, old_entries));
        let mut record_table = record_table;
        record_table.push(entry);
        let revlog_header = RevlogHeader::new(
            current_id,
            0,
            content.len() as u32,
            0,
            last_id as i32,
            last_p1,
            NULLID,
            nodeid,
        );
        assert(revlog_header@ == spec_next_header(content@, old_entries, old_headers));
        let mut headers = headers;
        headers.push(revlog_header);
        proof {
            assert(record_table.deep_view() =~= old_entries.push(
                spec_next_entry(content@, block_size as int, old_entries),
            ));
            assert(headers.deep_view() =~= old_headers.push(
                spec_next_header(content@, old_entries, old_headers),
            ));
            lemma_add_appends(content@, block_size as int, old_entries, old_headers);
            if log_wf(old_headers, old_entries) {
                lemma_add_well_formed(content@, block_size as int, old_entries, old_headers);
            }
        }
        Ok((headers, record_table))
    }
}

/// Rebuilds the payload of the revision whose entry has the id `id`.
pub fn get_full_data(id: u8, entries: &Vec<Entry>) -> (res: Result<Vec<u8>, MdaError>)
    ensures
        match spec_full_data(id, entries.deep_view()) {
            Ok(data) => res.is_ok() && res.unwrap()@ == data,
            Err(e) => res matches Err(x) && x == e,
        },
{
    proof {
        lemma_first_entry_with_id(entries.deep_view(), id, 0);
    }
    match find_index_by_id(id, entries) {
        Some(index) => {
            let data_blocks = get_data_blocks_up_to_id(id, entries);
            match get_data_blocks_by_index(&index, &data_blocks) {
                Ok(selected_blocks) => Ok(combine_data_blocks(&selected_blocks)),
                Err(e) => Err(e),
            }
        },
        None => Err(MdaError::RevisionNotFound),
    }
}

/// The position of the revision that `rev` asks for among `count`
/// revisions, if there is such a revision.
pub open spec fn spec_resolve_revision(rev: i32, count: int) -> Option<int> {
    let target = spec_target(rev, count);
    if 0 <= target < count {
        Some(target)
    } else {
        None
    }
}

/// Finds the position of the revision that `rev` asks for among `count`
/// revisions; `-1` asks for the latest one.
pub fn resolve_revision(rev: i32, count: usize) -> (res: Option<usize>)
    ensures
        match spec_resolve_revision(rev, count as int) {
            Some(target) => res.is_some() && res.unwrap() == target,
            None => res.is_none(),
        },
{
    if rev < -1 {
        None
    } else if rev == -1 {
        if count == 0 {
            None
        } else {
            Some(count - 1)
        }
    } else if rev as u32 as u64 >= count as u64 {
        None
    } else {
        Some(rev as usize)
    }
}

/// Rebuilds the payload of revision `rev`; `-1` asks for the latest one.
pub fn reconstruct(rev: i32, entries: &Vec<Entry>) -> (res: Result<Vec<u8>, MdaError>)
    ensures
        match spec_reconstruct(rev, entries.deep_view()) {
            Ok(data) => res.is_ok() && res.unwrap()@ == data,
            Err(e) => res matches Err(x) && x == e,
        },
{
    let target: usize = match resolve_revision(rev, entries.len()) {
        Some(target) => target,
        None => {
            return Err(MdaError::RevisionNotFound);
        },
    };
    if target > u8::MAX as usize {
        return Err(MdaError::InvariantViolated);
    }
    match get_full_data(target as u8, entries) {
        Ok(data) => Ok(data),
        Err(MdaError::RevisionNotFound) => Err(MdaError::InvariantViolated),
        Err(e) => Err(e),
    }
}

} // verus!
