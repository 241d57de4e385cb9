//! Data types of the revision log and their mathematical models.

use crate::block::{BlockSpec, DataBlock};
use vstd::prelude::*;

verus! {

/// Mathematical model of an [`Entry`].
pub struct EntrySpec {
    pub id: u8,
    pub index: Seq<usize>,
    pub blocks: Seq<BlockSpec>,
}

/// One revision: the block numbers that rebuild its payload, and the blocks
/// that this revision added to the pool.
#[derive(Debug, PartialEq, Eq)]
pub struct Entry {
    /// Position of the revision in the log.
    pub id: u8,
    /// Block numbers whose data, concatenated in order, is the payload.
    pub index: Vec<usize>,
    /// Blocks first introduced by this revision.
    pub blocks: Vec<DataBlock>,
}

impl View for Entry {
    type V = EntrySpec;

    open spec fn view(&self) -> EntrySpec {
        EntrySpec { id: self.id, index: self.index@, blocks: self.blocks.deep_view() }
    }
}

impl DeepView for Entry {
    type V = EntrySpec;

    open spec fn deep_view(&self) -> EntrySpec {
        self@
    }
}

impl Clone for Entry {
    fn clone(&self) -> (res: Self)
        ensures
            res@ == self@,
    {
        let mut blocks: Vec<DataBlock> = Vec::new();
        let mut i: usize = 0;
        while i < self.blocks.len()
            invariant
                0 <= i <= self.blocks.len(),
                blocks.len() == i,
                forall|k: int| 0 <= k < i ==> #[trigger] blocks[k]@ == self.blocks[k]@,
            decreases self.blocks.len() - i,
        {
            blocks.push(self.blocks[i].clone());
            i = i + 1;
        }
        assert(blocks.deep_view() =~= self.blocks.deep_view());
        Entry { id: self.id, index: self.index.clone(), blocks }
    }
}

/// Mathematical model of a [`RevlogHeader`].
pub struct HeaderSpec {
    pub rev: u8,
    pub offset: u64,
    pub length: u32,
    pub baserev: i32,
    pub linkrev: i32,
    pub p1rev: Seq<u8>,
    pub p2rev: Seq<u8>,
    pub nodeid: Seq<u8>,
}

/// Fixed-size metadata of one revision.
#[derive(Clone, Copy, Debug, PartialEq, Eq)]
pub struct RevlogHeader {
    /// Revision number; equals the id of the paired entry.
    pub rev: u8,
    /// Reserved.
    pub offset: u64,
    /// Payload length as produced by the log; byte length of the encoded
    /// entry once the header is stored in an archive.
    pub length: u32,
    /// Reserved.
    pub baserev: i32,
    /// Revision this one was appended after.
    pub linkrev: i32,
    /// First parent's node id.
    pub p1rev: [u8; 20],
    /// Second parent's node id; always the null id in a linear history.
    pub p2rev: [u8; 20],
    /// Content id of the revision's payload.
    pub nodeid: [u8; 20],
}

impl View for RevlogHeader {
    type V = HeaderSpec;

    open spec fn view(&self) -> HeaderSpec {
        HeaderSpec {
            rev: self.rev,
            offset: self.offset,
            length: self.length,
            baserev: self.baserev,
            linkrev: self.linkrev,
            p1rev: self.p1rev@,
            p2rev: self.p2rev@,
            nodeid: self.nodeid@,
        }
    }
}

impl DeepView for RevlogHeader {
    type V = HeaderSpec;

    open spec fn deep_view(&self) -> HeaderSpec {
        self@
    }
}

/// Absolute byte offsets of the two revision-log regions inside an archive.
#[derive(Clone, Copy, Debug, PartialEq, Eq, Structural)]
pub struct RevlogIndex {
    pub headers_offset: u64,
    pub entries_offset: u64,
}

/// Mathematical model of a [`Revlog`].
pub struct RevlogSpec {
    pub revlog_index: RevlogIndex,
    pub headers: Seq<HeaderSpec>,
    pub entries: Seq<EntrySpec>,
}

/// Headers and entries of an annotation history, positionally paired.
#[derive(Debug, PartialEq, Eq)]
pub struct Revlog {
    pub revlog_index: RevlogIndex,
    pub headers: Vec<RevlogHeader>,
    pub entries: Vec<Entry>,
}

impl View for Revlog {
    type V = RevlogSpec;

    open spec fn view(&self) -> RevlogSpec {
        RevlogSpec {
            revlog_index: self.revlog_index,
            headers: self.headers.deep_view(),
            entries: self.entries.deep_view(),
        }
    }
}

impl Clone for Revlog {
    fn clone(&self) -> (res: Self)
        ensures
            res@ == self@,
    {
        let mut entries: Vec<Entry> = Vec::new();
        let mut i: usize = 0;
        while i < self.entries.len()
            invariant
                0 <= i <= self.entries.len(),
                entries.len() == i,
                forall|k: int| 0 <= k < i ==> #[trigger] entries[k]@ == self.entries[k]@,
            decreases self.entries.len() - i,
        {
            entries.push(self.entries[i].clone());
            i = i + 1;
        }
        let headers = self.headers.clone();
        assert(entries.deep_view() =~= self.entries.deep_view());
        assert(headers.deep_view() =~= self.headers.deep_view());
        Revlog { revlog_index: self.revlog_index, headers, entries }
    }
}

impl Entry {
    /// Makes an entry of its three parts.
    pub fn new(id: u8, index: Vec<usize>, blocks: Vec<DataBlock>) -> (res: Self)
        ensures
            res.id == id,
            res.index == index,
            res.blocks == blocks,
    {
        Entry { id, index, blocks }
    }
}

impl RevlogHeader {
    /// Makes a header of its eight fields.
    pub fn new(
        rev: u8,
        offset: u64,
        length: u32,
        baserev: i32,
        linkrev: i32,
        p1rev: [u8; 20],
        p2rev: [u8; 20],
        nodeid: [u8; 20],
    ) -> (res: RevlogHeader)
        ensures
            res == (RevlogHeader { rev, offset, length, baserev, linkrev, p1rev, p2rev, nodeid }),
    {
        RevlogHeader { rev, offset, length, baserev, linkrev, p1rev, p2rev, nodeid }
    }
}

impl Revlog {
    /// Pairs headers with entries; the region offsets start at zero and are
    /// filled in when the log is laid out in an archive.
    pub fn new(revlog_header: Vec<RevlogHeader>, entries: Vec<Entry>) -> (res: Self)
        ensures
            res.headers == revlog_header,
            res.entries == entries,
            res.revlog_index == (RevlogIndex { headers_offset: 0, entries_offset: 0 }),
    {
        let revlog_index = RevlogIndex { headers_offset: 0, entries_offset: 0 };
        Revlog { revlog_index, headers: revlog_header, entries }
    }
}

/// All blocks contributed by the entries whose id is at most `id`, in list
/// order.
pub open spec fn spec_pool(entries: Seq<EntrySpec>, id: u8) -> Seq<BlockSpec>
    decreases entries.len(),
{
    if entries.len() == 0 {
        Seq::empty()
    } else {
        let rest = spec_pool(entries.drop_last(), id);
        if entries.last().id <= id {
            rest + entries.last().blocks
        } else {
            rest
        }
    }
}

/// Position of the first entry at or after `start` whose id is `id`.
pub open spec fn first_entry_with_id_from(entries: Seq<EntrySpec>, id: u8, start: int) -> Option<int>
    decreases entries.len() - start,
{
    if start < 0 || start >= entries.len() {
        None
    } else if entries[start].id == id {
        Some(start)
    } else {
        first_entry_with_id_from(entries, id, start + 1)
    }
}

/// Position of the first entry whose id is `id`.
pub open spec fn first_entry_with_id(entries: Seq<EntrySpec>, id: u8) -> Option<int> {
    first_entry_with_id_from(entries, id, 0)
}

/// Position of the first block at or after `start` numbered `number`.
pub open spec fn first_with_number_from(pool: Seq<BlockSpec>, number: usize, start: int) -> Option<int>
    decreases pool.len() - start,
{
    if start < 0 || start >= pool.len() {
        None
    } else if pool[start].block_number == number {
        Some(start)
    } else {
        first_with_number_from(pool, number, start + 1)
    }
}

/// Position of the first block numbered `number`.
pub open spec fn first_with_number(pool: Seq<BlockSpec>, number: usize) -> Option<int> {
    first_with_number_from(pool, number, 0)
}

/// Position of the first block at or after `start` whose content is `data`.
pub open spec fn first_with_data_from(pool: Seq<BlockSpec>, data: Seq<u8>, start: int) -> Option<int>
    decreases pool.len() - start,
{
    if start < 0 || start >= pool.len() {
        None
    } else if pool[start].data == data {
        Some(start)
    } else {
        first_with_data_from(pool, data, start + 1)
    }
}

/// Position of the first block whose content is `data`.
pub open spec fn first_with_data(pool: Seq<BlockSpec>, data: Seq<u8>) -> Option<int> {
    first_with_data_from(pool, data, 0)
}

/// Whether some block of `pool` has the content `data`.
pub open spec fn pool_has_data(pool: Seq<BlockSpec>, data: Seq<u8>) -> bool {
    exists|k: int| 0 <= k < pool.len() && #[trigger] pool[k].data == data
}

/// The blocks that `index` names, each looked up by number in `pool`;
/// `None` when some number names no block.
pub open spec fn spec_resolve(index: Seq<usize>, pool: Seq<BlockSpec>) -> Option<Seq<BlockSpec>>
    decreases index.len(),
{
    if index.len() == 0 {
        Some(Seq::empty())
    } else {
        match (spec_resolve(index.drop_last(), pool), first_with_number(pool, index.last())) {
            (Some(rest), Some(k)) => Some(rest.push(pool[k])),
            _ => None,
        }
    }
}

/// The contents of `blocks`, concatenated in order.
pub open spec fn spec_concat(blocks: Seq<BlockSpec>) -> Seq<u8>
    decreases blocks.len(),
{
    if blocks.len() == 0 {
        Seq::empty()
    } else {
        spec_concat(blocks.drop_last()) + blocks.last().data
    }
}

/// The blocks of `current` whose content occurs nowhere in `pool`.
pub open spec fn spec_new_blocks(pool: Seq<BlockSpec>, current: Seq<BlockSpec>) -> Seq<BlockSpec> {
    current.filter(|b: BlockSpec| !pool_has_data(pool, b.data))
}

/// The number of the pool's last block, or zero for an empty pool.
pub open spec fn spec_last_number(pool: Seq<BlockSpec>) -> int {
    if pool.len() == 0 {
        0
    } else {
        pool.last().block_number as int
    }
}

/// `blocks` renumbered `base + 1, base + 2, ...` in order.
pub open spec fn spec_renumber(base: int, blocks: Seq<BlockSpec>) -> Seq<BlockSpec> {
    Seq::new(
        blocks.len(),
        |k: int| BlockSpec { block_number: (base + 1 + k) as usize, data: blocks[k].data },
    )
}

/// For each block of `current` in order, the number of the first block of
/// `pool` with the same content; blocks without a match contribute nothing.
pub open spec fn spec_extract_index(current: Seq<BlockSpec>, pool: Seq<BlockSpec>) -> Seq<usize>
    decreases current.len(),
{
    if current.len() == 0 {
        Seq::empty()
    } else {
        let rest = spec_extract_index(current.drop_last(), pool);
        match first_with_data(pool, current.last().data) {
            Some(k) => rest.push(pool[k].block_number),
            None => rest,
        }
    }
}

/// What the first-match search for an entry id returns.
pub proof fn lemma_first_entry_with_id(entries: Seq<EntrySpec>, id: u8, start: int)
    requires
        0 <= start,
    ensures
        match first_entry_with_id_from(entries, id, start) {
            Some(k) => start <= k < entries.len() && entries[k].id == id && forall|j: int|
                start <= j < k ==> (#[trigger] entries[j]).id != id,
            None => forall|j: int| start <= j < entries.len() ==> (#[trigger] entries[j]).id != id,
        },
    decreases entries.len() - start,
{
    if start < entries.len() && entries[start].id != id {
        lemma_first_entry_with_id(entries, id, start + 1);
    }
}

/// What the first-match search for a block number returns.
pub proof fn lemma_first_with_number(pool: Seq<BlockSpec>, number: usize, start: int)
    requires
        0 <= start,
    ensures
        match first_with_number_from(pool, number, start) {
            Some(k) => start <= k < pool.len() && pool[k].block_number == number && forall|j: int|
                start <= j < k ==> (#[trigger] pool[j]).block_number != number,
            None => forall|j: int|
                start <= j < pool.len() ==> (#[trigger] pool[j]).block_number != number,
        },
    decreases pool.len() - start,
{
    if start < pool.len() && pool[start].block_number != number {
        lemma_first_with_number(pool, number, start + 1);
    }
}

/// What the first-match search for a block content returns.
pub proof fn lemma_first_with_data(pool: Seq<BlockSpec>, data: Seq<u8>, start: int)
    requires
        0 <= start,
    ensures
        match first_with_data_from(pool, data, start) {
            Some(k) => start <= k < pool.len() && pool[k].data == data && forall|j: int|
                start <= j < k ==> (#[trigger] pool[j]).data != data,
            None => forall|j: int| start <= j < pool.len() ==> (#[trigger] pool[j]).data != data,
        },
    decreases pool.len() - start,
{
    if start < pool.len() && pool[start].data != data {
        lemma_first_with_data(pool, data, start + 1);
    }
}

} // verus!
