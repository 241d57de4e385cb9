//! Fixed-size positional splitting of a byte buffer into numbered blocks.

use vstd::prelude::*;
use vstd::slice::*;

verus! {

/// Default positional chunk size in bytes.
pub const BLOCK_SIZE: usize = 10;

/// Mathematical model of a [`DataBlock`].
pub struct BlockSpec {
    pub block_number: usize,
    pub data: Seq<u8>,
}

/// A numbered slice of payload bytes held in a revision log's block pool.
#[derive(Debug, PartialEq, Eq)]
pub struct DataBlock {
    /// Identifier of the block, unique within one pool.
    pub block_number: usize,
    /// Content of the block.
    pub data: Vec<u8>,
}

impl View for DataBlock {
    type V = BlockSpec;

    open spec fn view(&self) -> BlockSpec {
        BlockSpec { block_number: self.block_number, data: self.data@ }
    }
}

impl DeepView for DataBlock {
    type V = BlockSpec;

    open spec fn deep_view(&self) -> BlockSpec {
        self@
    }
}

impl Clone for DataBlock {
    fn clone(&self) -> (res: Self)
        ensures
            res@ == self@,
    {
        DataBlock { block_number: self.block_number, data: self.data.clone() }
    }
}

impl DataBlock {
    /// Makes a block with the given number and content.
    pub fn new(block_number: usize, data: Vec<u8>) -> (res: Self)
        ensures
            res.block_number == block_number,
            res.data == data,
    {
        DataBlock { block_number, data }
    }
}

/// Number of blocks that a buffer of `len` bytes splits into.
pub open spec fn block_count(len: int, block_size: int) -> int {
    if block_size <= 0 {
        0
    } else {
        (len + block_size - 1) / block_size
    }
}

/// The `k`-th block of `data`: bytes `k * block_size` up to the next block
/// boundary or the end of the buffer, whichever comes first.
pub open spec fn spec_block(data: Seq<u8>, block_size: int, k: int) -> BlockSpec {
    let start = k * block_size;
    let end = if start + block_size <= data.len() {
        start + block_size
    } else {
        data.len() as int
    };
    BlockSpec { block_number: k as usize, data: data.subrange(start, end) }
}

/// Positional partition of `data` into blocks numbered `0, 1, 2, ...`.
pub open spec fn spec_split(data: Seq<u8>, block_size: int) -> Seq<BlockSpec> {
    Seq::new(block_count(data.len() as int, block_size) as nat, |k: int| spec_block(data, block_size, k))
}

/// The numbers `0, 1, ..., n - 1`.
pub open spec fn spec_numbering(n: int) -> Seq<usize> {
    Seq::new(n as nat, |k: int| k as usize)
}

proof fn lemma_block_count_bounds(len: int, block_size: int, k: int)
    requires
        block_size > 0,
        len >= 0,
        k >= 0,
        len <= k * block_size,
        k > 0 ==> (k - 1) * block_size < len,
    ensures
        block_count(len, block_size) == k,
{
    if k == 0 {
        assert(len == 0);
        assert((block_size - 1) / block_size == 0) by (nonlinear_arith)
            requires
                block_size > 0,
        ;
    } else {
        let r = len + block_size - 1 - k * block_size;
        assert(k * block_size - block_size == (k - 1) * block_size) by (nonlinear_arith);
        assert(0 <= r < block_size);
        vstd::arithmetic::div_mod::lemma_fundamental_div_mod_converse(
            len + block_size - 1,
            block_size,
            k,
            r,
        );
    }
}

/// Splits `data` into consecutive blocks of `block_size` bytes (the last one
/// may be shorter) and returns them with their numbers.
pub fn split_data_into_blocks(data: &[u8], block_size: usize) -> (res: (Vec<DataBlock>, Vec<usize>))
    requires
        block_size > 0,
    ensures
        res.0.deep_view() == spec_split(data@, block_size as int),
        res.0.len() == block_count(data@.len() as int, block_size as int),
        res.1@ == spec_numbering(res.0.len() as int),
{
    let mut blocks: Vec<DataBlock> = Vec::new();
    let mut numbers: Vec<usize> = Vec::new();
    let mut index: usize = 0;
    let mut block_number: usize = 0;
    let len: usize = data.len();
    while index < len
        invariant
            block_size > 0,
            len == data@.len(),
            index <= len,
            blocks.len() == block_number,
            numbers.len() == block_number,
            index < len ==> index == block_number * block_size,
            index == len ==> len <= block_number * block_size,
            block_number > 0 ==> (block_number - 1) * block_size < len,
            block_number <= index,
            forall|k: int| 0 <= k < block_number ==> #[trigger] blocks[k]@ == spec_block(data@, block_size as int, k),
            forall|k: int| 0 <= k < block_number ==> #[trigger] numbers[k] == k,
        decreases len - index,
    {
        let end: usize = if block_size >= len - index {
            len
        } else {
            index + block_size
        };
        let chunk = slice_to_vec(slice_subrange(data, index, end));
        proof {
            assert((block_number + 1) * block_size == block_number * block_size + block_size)
                by (nonlinear_arith);
            assert((block_number + 1 - 1) * block_size == block_number * block_size)
                by (nonlinear_arith);
        }
        numbers.push(block_number);
        blocks.push(DataBlock::new(block_number, chunk));
        index = end;
        block_number = block_number + 1;
    }
    proof {
        lemma_block_count_bounds(len as int, block_size as int, block_number as int);
        assert(blocks.deep_view() =~= spec_split(data@, block_size as int));
        assert(numbers@ =~= spec_numbering(blocks.len() as int));
    }
    (blocks, numbers)
}

} // verus!
