//! The encoding of a revision entry: its id as one byte, its index as a
//! counted sequence of 64-bit block numbers, and its blocks as a counted
//! sequence of numbered, length-prefixed byte strings.

use crate::block::{BlockSpec, DataBlock};
use crate::codec::wire::{
    holds, lemma_bytes_at, lemma_holds_concat, lemma_le64_len, lemma_u64_at, read_bytes, read_u64,
    read_usize, spec_bytes_at, spec_encode_bytes, spec_le64, spec_u64_at, spec_usize_at,
    write_bytes, write_u64,
};
use crate::error::{CorruptReason, MdaError};
use crate::revlog::model::{Entry, EntrySpec};
use vstd::prelude::*;

verus! {

/// A block on the wire: its number, then its content with a length prefix.
pub open spec fn spec_encode_block(block: BlockSpec) -> Seq<u8> {
    spec_le64(block.block_number as u64) + spec_encode_bytes(block.data)
}

/// Block numbers on the wire, tightly packed.
pub open spec fn spec_encode_numbers(numbers: Seq<usize>) -> Seq<u8>
    decreases numbers.len(),
{
    if numbers.len() == 0 {
        Seq::empty()
    } else {
        spec_encode_numbers(numbers.drop_last()) + spec_le64(numbers.last() as u64)
    }
}

/// Blocks on the wire, tightly packed.
pub open spec fn spec_encode_blocks(blocks: Seq<BlockSpec>) -> Seq<u8>
    decreases blocks.len(),
{
    if blocks.len() == 0 {
        Seq::empty()
    } else {
        spec_encode_blocks(blocks.drop_last()) + spec_encode_block(blocks.last())
    }
}

/// An entry on the wire.
pub open spec fn spec_encode_entry(entry: EntrySpec) -> Seq<u8> {
    seq![entry.id] + spec_le64(entry.index.len() as u64) + spec_encode_numbers(entry.index)
        + spec_le64(entry.blocks.len() as u64) + spec_encode_blocks(entry.blocks)
}

/// Every length of the entry fits the 64-bit count that announces it.
pub open spec fn entry_encodable(entry: EntrySpec) -> bool {
    &&& entry.index.len() <= u64::MAX
    &&& entry.blocks.len() <= u64::MAX
    &&& blocks_encodable(entry.blocks)
}

/// The content of every block is short enough for its length prefix.
pub open spec fn blocks_encodable(blocks: Seq<BlockSpec>) -> bool {
    forall|k: int| 0 <= k < blocks.len() ==> (#[trigger] blocks[k]).data.len() <= u64::MAX
}

/// The block that stands at `pos`, with the position after it.
pub open spec fn spec_block_at(b: Seq<u8>, pos: int) -> Option<(BlockSpec, int)> {
    match spec_usize_at(b, pos) {
        Some((block_number, p)) => match spec_bytes_at(b, p) {
            Some((data, end)) => Some((BlockSpec { block_number, data }, end)),
            None => None,
        },
        None => None,
    }
}

/// The `count` block numbers that stand at `pos`.
pub open spec fn spec_numbers_at(b: Seq<u8>, pos: int, count: nat) -> Option<(Seq<usize>, int)>
    decreases count,
{
    if count == 0 {
        Some((Seq::empty(), pos))
    } else {
        match spec_numbers_at(b, pos, (count - 1) as nat) {
            Some((numbers, p)) => match spec_usize_at(b, p) {
                Some((x, end)) => Some((numbers.push(x), end)),
                None => None,
            },
            None => None,
        }
    }
}

/// The `count` blocks that stand at `pos`.
pub open spec fn spec_blocks_at(b: Seq<u8>, pos: int, count: nat) -> Option<(Seq<BlockSpec>, int)>
    decreases count,
{
    if count == 0 {
        Some((Seq::empty(), pos))
    } else {
        match spec_blocks_at(b, pos, (count - 1) as nat) {
            Some((blocks, p)) => match spec_block_at(b, p) {
                Some((block, end)) => Some((blocks.push(block), end)),
                None => None,
            },
            None => None,
        }
    }
}

/// The entry that stands at `pos`, with the position after it.
pub open spec fn spec_entry_at(b: Seq<u8>, pos: int) -> Option<(EntrySpec, int)> {
    if 0 <= pos < b.len() {
        match spec_u64_at(b, pos + 1) {
            Some((index_count, part1)) => match spec_numbers_at(b, part1, index_count as nat) {
                Some((index, part2)) => match spec_u64_at(b, part2) {
                    Some((block_count, part3)) => match spec_blocks_at(b, part3, block_count as nat) {
                        Some((blocks, end)) => Some((EntrySpec { id: b[pos], index, blocks }, end)),
                        None => None,
                    },
                    None => None,
                },
                None => None,
            },
            None => None,
        }
    } else {
        None
    }
}

/// The entry that `b` is the encoding of, if it is the encoding of one.
pub open spec fn spec_decode_entry(b: Seq<u8>) -> Option<EntrySpec> {
    match spec_entry_at(b, 0) {
        Some((entry, end)) => if end == b.len() {
            Some(entry)
        } else {
            None
        },
        None => None,
    }
}

/// A block that stands at `pos` is read back from there.
pub proof fn lemma_block_written(b: Seq<u8>, pos: int, block: BlockSpec)
    requires
        block.data.len() <= u64::MAX,
        holds(b, pos, spec_encode_block(block)),
    ensures
        spec_block_at(b, pos) == Some((block, pos + spec_encode_block(block).len())),
{
    let number = spec_le64(block.block_number as u64);
    lemma_le64_len(block.block_number as u64);
    lemma_holds_concat(b, pos, number, spec_encode_bytes(block.data));
    lemma_u64_at(b, pos);
    lemma_bytes_at(b, pos + 8);
    lemma_le64_len(block.data.len() as u64);
}

/// A block read from `pos` stands there.
pub proof fn lemma_block_read(b: Seq<u8>, pos: int)
    requires
        spec_block_at(b, pos).is_some(),
    ensures
        ({
            let (block, end) = spec_block_at(b, pos).unwrap();
            &&& block.data.len() <= u64::MAX
            &&& holds(b, pos, spec_encode_block(block))
            &&& end == pos + spec_encode_block(block).len()
            &&& pos + 16 <= end <= b.len()
        }),
{
    let (block, end) = spec_block_at(b, pos).unwrap();
    lemma_u64_at(b, pos);
    lemma_bytes_at(b, pos + 8);
    lemma_le64_len(block.block_number as u64);
    lemma_le64_len(block.data.len() as u64);
    lemma_holds_concat(b, pos, spec_le64(block.block_number as u64), spec_encode_bytes(block.data));
}

/// Numbers that stand at `pos` are read back from there.
pub proof fn lemma_numbers_written(b: Seq<u8>, pos: int, numbers: Seq<usize>)
    requires
        holds(b, pos, spec_encode_numbers(numbers)),
    ensures
        spec_numbers_at(b, pos, numbers.len()) == Some(
            (numbers, pos + spec_encode_numbers(numbers).len()),
        ),
        spec_encode_numbers(numbers).len() == 8 * numbers.len(),
    decreases numbers.len(),
{
    if numbers.len() > 0 {
        let shorter = numbers.drop_last();
        let last = spec_le64(numbers.last() as u64);
        lemma_le64_len(numbers.last() as u64);
        lemma_holds_concat(b, pos, spec_encode_numbers(shorter), last);
        lemma_numbers_written(b, pos, shorter);
        lemma_u64_at(b, pos + spec_encode_numbers(shorter).len());
        assert(shorter.push(numbers.last()) =~= numbers);
    }
}

/// Numbers read from `pos` stand there.
pub proof fn lemma_numbers_read(b: Seq<u8>, pos: int, count: nat)
    requires
        0 <= pos <= b.len(),
        spec_numbers_at(b, pos, count).is_some(),
    ensures
        ({
            let (numbers, end) = spec_numbers_at(b, pos, count).unwrap();
            &&& numbers.len() == count
            &&& holds(b, pos, spec_encode_numbers(numbers))
            &&& end == pos + spec_encode_numbers(numbers).len()
            &&& end == pos + 8 * count
            &&& end <= b.len()
        }),
    decreases count,
{
    if count == 0 {
        assert(b.subrange(pos, pos) =~= Seq::<u8>::empty());
    } else {
        lemma_numbers_read(b, pos, (count - 1) as nat);
        let (shorter, p) = spec_numbers_at(b, pos, (count - 1) as nat).unwrap();
        let (x, end) = spec_usize_at(b, p).unwrap();
        lemma_u64_at(b, p);
        lemma_le64_len(x as u64);
        assert(shorter.push(x).drop_last() =~= shorter);
        lemma_holds_concat(b, pos, spec_encode_numbers(shorter), spec_le64(x as u64));
    }
}

/// Once a shorter run of numbers cannot be read, no longer one can.
pub proof fn lemma_numbers_fail(b: Seq<u8>, pos: int, k: nat, count: nat)
    requires
        k <= count,
        spec_numbers_at(b, pos, k).is_none(),
    ensures
        spec_numbers_at(b, pos, count).is_none(),
    decreases count,
{
    if k < count {
        lemma_numbers_fail(b, pos, k, (count - 1) as nat);
    }
}

/// Blocks that stand at `pos` are read back from there.
pub proof fn lemma_blocks_written(b: Seq<u8>, pos: int, blocks: Seq<BlockSpec>)
    requires
        blocks_encodable(blocks),
        holds(b, pos, spec_encode_blocks(blocks)),
    ensures
        spec_blocks_at(b, pos, blocks.len()) == Some(
            (blocks, pos + spec_encode_blocks(blocks).len()),
        ),
    decreases blocks.len(),
{
    if blocks.len() > 0 {
        let shorter = blocks.drop_last();
        lemma_holds_concat(b, pos, spec_encode_blocks(shorter), spec_encode_block(blocks.last()));
        assert forall|k: int| 0 <= k < shorter.len() implies (#[trigger] shorter[k]).data.len()
            <= u64::MAX by {
            assert(shorter[k] == blocks[k]);
        }
        lemma_blocks_written(b, pos, shorter);
        lemma_block_written(b, pos + spec_encode_blocks(shorter).len(), blocks.last());
        assert(shorter.push(blocks.last()) =~= blocks);
    }
}

/// Blocks read from `pos` stand there.
pub proof fn lemma_blocks_read(b: Seq<u8>, pos: int, count: nat)
    requires
        0 <= pos <= b.len(),
        spec_blocks_at(b, pos, count).is_some(),
    ensures
        ({
            let (blocks, end) = spec_blocks_at(b, pos, count).unwrap();
            &&& blocks.len() == count
            &&& blocks_encodable(blocks)
            &&& holds(b, pos, spec_encode_blocks(blocks))
            &&& end == pos + spec_encode_blocks(blocks).len()
            &&& pos + 16 * count <= end <= b.len()
        }),
    decreases count,
{
    if count == 0 {
        assert(b.subrange(pos, pos) =~= Seq::<u8>::empty());
    } else {
        lemma_blocks_read(b, pos, (count - 1) as nat);
        let (shorter, p) = spec_blocks_at(b, pos, (count - 1) as nat).unwrap();
        let (block, end) = spec_block_at(b, p).unwrap();
        lemma_block_read(b, p);
        assert(shorter.push(block).drop_last() =~= shorter);
        lemma_holds_concat(b, pos, spec_encode_blocks(shorter), spec_encode_block(block));
    }
}

/// Once a shorter run of blocks cannot be read, no longer one can.
pub proof fn lemma_blocks_fail(b: Seq<u8>, pos: int, k: nat, count: nat)
    requires
        k <= count,
        spec_blocks_at(b, pos, k).is_none(),
    ensures
        spec_blocks_at(b, pos, count).is_none(),
    decreases count,
{
    if k < count {
        lemma_blocks_fail(b, pos, k, (count - 1) as nat);
    }
}

proof fn lemma_entry_parts(b: Seq<u8>, pos: int, entry: EntrySpec)
    ensures
        holds(b, pos, spec_encode_entry(entry)) <==> {
            &&& holds(b, pos, seq![entry.id])
            &&& holds(b, pos + 1, spec_le64(entry.index.len() as u64))
            &&& holds(b, pos + 9, spec_encode_numbers(entry.index))
            &&& holds(
                b,
                pos + 9 + spec_encode_numbers(entry.index).len(),
                spec_le64(entry.blocks.len() as u64),
            )
            &&& holds(
                b,
                pos + 17 + spec_encode_numbers(entry.index).len(),
                spec_encode_blocks(entry.blocks),
            )
        },
        spec_encode_entry(entry).len() == 17 + spec_encode_numbers(entry.index).len()
            + spec_encode_blocks(entry.blocks).len(),
{
    lemma_le64_len(entry.index.len() as u64);
    lemma_le64_len(entry.blocks.len() as u64);
    let part1 = seq![entry.id];
    let part2 = part1 + spec_le64(entry.index.len() as u64);
    let part3 = part2 + spec_encode_numbers(entry.index);
    let part4 = part3 + spec_le64(entry.blocks.len() as u64);
    lemma_holds_concat(b, pos, part1, spec_le64(entry.index.len() as u64));
    lemma_holds_concat(b, pos, part2, spec_encode_numbers(entry.index));
    lemma_holds_concat(b, pos, part3, spec_le64(entry.blocks.len() as u64));
    lemma_holds_concat(b, pos, part4, spec_encode_blocks(entry.blocks));
}

/// An entry that stands at `pos` is read back from there.
pub proof fn lemma_entry_written(b: Seq<u8>, pos: int, entry: EntrySpec)
    requires
        entry_encodable(entry),
        holds(b, pos, spec_encode_entry(entry)),
    ensures
        spec_entry_at(b, pos) == Some((entry, pos + spec_encode_entry(entry).len())),
{
    lemma_entry_parts(b, pos, entry);
    lemma_u64_at(b, pos + 1);
    lemma_numbers_written(b, pos + 9, entry.index);
    let part2 = pos + 9 + spec_encode_numbers(entry.index).len();
    lemma_u64_at(b, part2);
    lemma_blocks_written(b, part2 + 8, entry.blocks);
    assert(b.subrange(pos, pos + 1)[0] == b[pos]);
}

/// An entry read from `pos` stands there.
pub proof fn lemma_entry_read(b: Seq<u8>, pos: int)
    requires
        spec_entry_at(b, pos).is_some(),
    ensures
        ({
            let (entry, end) = spec_entry_at(b, pos).unwrap();
            &&& entry_encodable(entry)
            &&& holds(b, pos, spec_encode_entry(entry))
            &&& end == pos + spec_encode_entry(entry).len()
            &&& end <= b.len()
        }),
{
    let (entry, end) = spec_entry_at(b, pos).unwrap();
    let (index_count, part1) = spec_u64_at(b, pos + 1).unwrap();
    lemma_u64_at(b, pos + 1);
    lemma_numbers_read(b, part1, index_count as nat);
    let (index, part2) = spec_numbers_at(b, part1, index_count as nat).unwrap();
    let (block_count, part3) = spec_u64_at(b, part2).unwrap();
    lemma_u64_at(b, part2);
    lemma_blocks_read(b, part3, block_count as nat);
    lemma_entry_parts(b, pos, entry);
    assert(b.subrange(pos, pos + 1) =~= seq![entry.id]);
}

/// Decoding inverts encoding.
pub proof fn lemma_decode_encode_entry(entry: EntrySpec)
    requires
        entry_encodable(entry),
    ensures
        spec_decode_entry(spec_encode_entry(entry)) == Some(entry),
{
    let b = spec_encode_entry(entry);
    assert(b.subrange(0, b.len() as int) =~= b);
    lemma_entry_written(b, 0, entry);
}

/// What decodes to an entry is the encoding of that entry.
pub proof fn lemma_encode_decode_entry(b: Seq<u8>)
    requires
        spec_decode_entry(b).is_some(),
    ensures
        spec_encode_entry(spec_decode_entry(b).unwrap()) == b,
        entry_encodable(spec_decode_entry(b).unwrap()),
{
    lemma_entry_read(b, 0);
    assert(b.subrange(0, b.len() as int) =~= b);
}

/// Reads the `count` block numbers at `pos`.
fn read_numbers(bytes: &[u8], pos: usize, count: u64) -> (res: Option<(Vec<usize>, usize)>)
    requires
        pos <= bytes@.len(),
    ensures
        match spec_numbers_at(bytes@, pos as int, count as nat) {
            Some((numbers, end)) => res.is_some() && res.unwrap().0@ == numbers && res.unwrap().1
                == end && end <= bytes@.len(),
            None => res.is_none(),
        },
{
    let mut numbers: Vec<usize> = Vec::new();
    let mut p: usize = pos;
    let mut k: u64 = 0;
    while k < count
        invariant
            0 <= k <= count,
            pos <= p <= bytes@.len(),
            spec_numbers_at(bytes@, pos as int, k as nat) == Some((numbers@, p as int)),
        decreases count - k,
    {
        match read_usize(bytes, p) {
            Some((x, end)) => {
                numbers.push(x);
                p = end;
            },
            None => {
                proof {
                    lemma_numbers_fail(bytes@, pos as int, (k + 1) as nat, count as nat);
                }
                return None;
            },
        }
        k = k + 1;
    }
    Some((numbers, p))
}

/// Reads the block at `pos`.
pub fn read_block(bytes: &[u8], pos: usize) -> (res: Option<(DataBlock, usize)>)
    ensures
        match spec_block_at(bytes@, pos as int) {
            Some((block, end)) => res.is_some() && res.unwrap().0@ == block && res.unwrap().1 == end
                && end <= bytes@.len(),
            None => res.is_none(),
        },
{
    match read_usize(bytes, pos) {
        Some((block_number, p)) => match read_bytes(bytes, p) {
            Some((data, end)) => Some((DataBlock { block_number, data }, end)),
            None => None,
        },
        None => None,
    }
}

/// Reads the `count` blocks at `pos`.
fn read_blocks(bytes: &[u8], pos: usize, count: u64) -> (res: Option<(Vec<DataBlock>, usize)>)
    requires
        pos <= bytes@.len(),
    ensures
        match spec_blocks_at(bytes@, pos as int, count as nat) {
            Some((blocks, end)) => res.is_some() && res.unwrap().0.deep_view() == blocks
                && res.unwrap().1 == end && end <= bytes@.len(),
            None => res.is_none(),
        },
{
    let mut blocks: Vec<DataBlock> = Vec::new();
    let mut p: usize = pos;
    let mut k: u64 = 0;
    assert(blocks.deep_view() =~= Seq::<BlockSpec>::empty());
    while k < count
        invariant
            0 <= k <= count,
            pos <= p <= bytes@.len(),
            spec_blocks_at(bytes@, pos as int, k as nat) == Some((blocks.deep_view(), p as int)),
        decreases count - k,
    {
        match read_block(bytes, p) {
            Some((block, end)) => {
                let ghost before = blocks.deep_view();
                blocks.push(block);
                assert(blocks.deep_view() =~= before.push(block@));
                p = end;
            },
            None => {
                proof {
                    lemma_blocks_fail(bytes@, pos as int, (k + 1) as nat, count as nat);
                }
                return None;
            },
        }
        k = k + 1;
    }
    Some((blocks, p))
}

/// Reads the entry at `pos`.
pub fn read_entry(bytes: &[u8], pos: usize) -> (res: Option<(Entry, usize)>)
    ensures
        match spec_entry_at(bytes@, pos as int) {
            Some((entry, end)) => res.is_some() && res.unwrap().0@ == entry && res.unwrap().1 == end
                && end <= bytes@.len(),
            None => res.is_none(),
        },
{
    if pos >= bytes.len() {
        return None;
    }
    let id = bytes[pos];
    let (index_count, part1) = match read_u64(bytes, pos + 1) {
        Some(pair) => pair,
        None => {
            return None;
        },
    };
    let (index, part2) = match read_numbers(bytes, part1, index_count) {
        Some(pair) => pair,
        None => {
            return None;
        },
    };
    let (block_count, part3) = match read_u64(bytes, part2) {
        Some(pair) => pair,
        None => {
            return None;
        },
    };
    let (blocks, end) = match read_blocks(bytes, part3, block_count) {
        Some(pair) => pair,
        None => {
            return None;
        },
    };
    Some((Entry { id, index, blocks }, end))
}

/// Decodes `bytes` as one entry that fills them exactly.
pub fn decode_entry(bytes: &[u8]) -> (res: Result<Entry, MdaError>)
    ensures
        match spec_decode_entry(bytes@) {
            Some(entry) => res.is_ok() && res.unwrap()@ == entry,
            None => res matches Err(e) && e == MdaError::CorruptArchive(CorruptReason::BadEntry),
        },
{
    match read_entry(bytes, 0) {
        Some((entry, end)) => {
            if end == bytes.len() {
                Ok(entry)
            } else {
                Err(MdaError::CorruptArchive(CorruptReason::BadEntry))
            }
        },
        None => Err(MdaError::CorruptArchive(CorruptReason::BadEntry)),
    }
}

/// Appends the encoding of `entry` to `out`.
pub fn write_entry(out: &mut Vec<u8>, entry: &Entry)
    ensures
        final(out)@ == old(out)@ + spec_encode_entry(entry@),
{
    let ghost start = out@;
    out.push(entry.id);
    write_u64(out, entry.index.len() as u64);
    let ghost head = out@;
    let mut i: usize = 0;
    assert(entry.index@.take(0) =~= Seq::<usize>::empty());
    assert(out@ =~= head + spec_encode_numbers(entry.index@.take(0)));
    while i < entry.index.len()
        invariant
            0 <= i <= entry.index.len(),
            out@ == head + spec_encode_numbers(entry.index@.take(i as int)),
        decreases entry.index.len() - i,
    {
        write_u64(out, entry.index[i] as u64);
        proof {
            assert(entry.index@.take(i as int + 1).drop_last() =~= entry.index@.take(i as int));
            assert(out@ =~= head + spec_encode_numbers(entry.index@.take(i as int + 1)));
        }
        i = i + 1;
    }
    assert(entry.index@.take(i as int) =~= entry.index@);
    write_u64(out, entry.blocks.len() as u64);
    let ghost middle = out@;
    let mut j: usize = 0;
    assert(entry.blocks.deep_view().take(0) =~= Seq::<BlockSpec>::empty());
    assert(out@ =~= middle + spec_encode_blocks(entry.blocks.deep_view().take(0)));
    while j < entry.blocks.len()
        invariant
            0 <= j <= entry.blocks.len(),
            out@ == middle + spec_encode_blocks(entry.blocks.deep_view().take(j as int)),
        decreases entry.blocks.len() - j,
    {
        let block = &entry.blocks[j];
        let ghost before = out@;
        write_u64(out, block.block_number as u64);
        write_bytes(out, block.data.as_slice());
        proof {
            assert(entry.blocks.deep_view().take(j as int + 1).drop_last()
                =~= entry.blocks.deep_view().take(j as int));
            assert(entry.blocks.deep_view().take(j as int + 1).last() == block@);
            assert(out@ =~= before + spec_encode_block(block@));
            assert(out@ =~= middle + spec_encode_blocks(entry.blocks.deep_view().take(j as int + 1)));
        }
        j = j + 1;
    }
    assert(entry.blocks.deep_view().take(j as int) =~= entry.blocks.deep_view());
    assert(out@ =~= start + spec_encode_entry(entry@));
}

/// Encodes `entry`.
pub fn encode_entry(entry: &Entry) -> (res: Vec<u8>)
    ensures
        res@ == spec_encode_entry(entry@),
{
    let mut out: Vec<u8> = Vec::new();
    write_entry(&mut out, entry);
    assert(out@ =~= spec_encode_entry(entry@));
    out
}

} // verus!
