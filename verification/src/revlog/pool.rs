//! Operations on the cumulative block pool of a revision log.

use crate::block::{split_data_into_blocks, spec_split, BlockSpec, DataBlock};
use crate::error::{CorruptReason, MdaError};
use crate::revlog::model::{
    first_entry_with_id, first_entry_with_id_from, first_with_data, first_with_data_from,
    first_with_number, first_with_number_from, pool_has_data, spec_concat, spec_extract_index,
    spec_last_number, spec_new_blocks, spec_pool, spec_renumber, spec_resolve, Entry, EntrySpec,
};
use crate::text::string_from_utf8;
use vstd::prelude::*;
use vstd::utf8::{encode_utf8, valid_utf8};

verus! {

/// Decides whether two byte strings are equal.
pub fn same_bytes(a: &[u8], b: &[u8]) -> (res: bool)
    ensures
        res == (a@ == b@),
{
    if a.len() != b.len() {
        return false;
    }
    let mut i: usize = 0;
    while i < a.len()
        invariant
            0 <= i <= a.len(),
            a.len() == b.len(),
            forall|k: int| 0 <= k < i ==> a[k] == b[k],
        decreases a.len() - i,
    {
        if a[i] != b[i] {
            return false;
        }
        i = i + 1;
    }
    assert(a@ =~= b@);
    true
}

/// Finds the index sequence of the first entry whose id is `id`.
pub fn find_index_by_id(id: u8, delta_list: &Vec<Entry>) -> (res: Option<Vec<usize>>)
    ensures
        match first_entry_with_id(delta_list.deep_view(), id) {
            Some(k) => res.is_some() && res.unwrap()@ == delta_list[k].index@,
            None => res.is_none(),
        },
{
    let mut i: usize = 0;
    while i < delta_list.len()
        invariant
            0 <= i <= delta_list.len(),
            first_entry_with_id(delta_list.deep_view(), id) == first_entry_with_id_from(
                delta_list.deep_view(),
                id,
                i as int,
            ),
        decreases delta_list.len() - i,
    {
        if delta_list[i].id == id {
            return Some(delta_list[i].index.clone());
        }
        i = i + 1;
    }
    None
}

/// The pool of the first `i + 1` entries is the pool of the first `i`,
/// followed by the blocks of entry `i` where its id is within the bound.
pub proof fn lemma_pool_step(entries: Seq<EntrySpec>, id: u8, i: int)
    requires
        0 <= i < entries.len(),
    ensures
        spec_pool(entries.take(i + 1), id) == if entries[i].id <= id {
            spec_pool(entries.take(i), id) + entries[i].blocks
        } else {
            spec_pool(entries.take(i), id)
        },
{
    assert(entries.take(i + 1).drop_last() =~= entries.take(i));
}

/// Collects the blocks of every entry whose id is at most `id`.
pub fn get_data_blocks_up_to_id(id: u8, delta_list: &Vec<Entry>) -> (res: Vec<DataBlock>)
    ensures
        res.deep_view() == spec_pool(delta_list.deep_view(), id),
{
    let mut data_blocks: Vec<DataBlock> = Vec::new();
    let mut i: usize = 0;
    assert(data_blocks.deep_view() =~= Seq::<BlockSpec>::empty());
    assert(delta_list.deep_view().take(0) =~= Seq::<EntrySpec>::empty());
    while i < delta_list.len()
        invariant
            0 <= i <= delta_list.len(),
            data_blocks.deep_view() == spec_pool(delta_list.deep_view().take(i as int), id),
        decreases delta_list.len() - i,
    {
        let entry = &delta_list[i];
        proof {
            lemma_pool_step(delta_list.deep_view(), id, i as int);
        }
        if entry.id <= id {
            let ghost before = data_blocks.deep_view();
            let mut j: usize = 0;
            while j < entry.blocks.len()
                invariant
                    0 <= j <= entry.blocks.len(),
                    data_blocks.deep_view() == before + entry.blocks.deep_view().take(j as int),
                decreases entry.blocks.len() - j,
            {
                let ghost prev = data_blocks.deep_view();
                data_blocks.push(entry.blocks[j].clone());
                assert(data_blocks.deep_view() =~= prev.push(entry.blocks.deep_view()[j as int]));
                assert(data_blocks.deep_view() =~= before + entry.blocks.deep_view().take(
                    j as int + 1,
                ));
                j = j + 1;
            }
            assert(entry.blocks.deep_view().take(j as int) =~= entry.blocks.deep_view());
        }
        i = i + 1;
    }
    assert(delta_list.deep_view().take(i as int) =~= delta_list.deep_view());
    data_blocks
}

/// Resolving one more index number looks up that number and appends the
/// block found.
pub proof fn lemma_resolve_step(index: Seq<usize>, pool: Seq<BlockSpec>, i: int)
    requires
        0 <= i < index.len(),
    ensures
        spec_resolve(index.take(i + 1), pool) == match (
            spec_resolve(index.take(i), pool),
            first_with_number(pool, index[i]),
        ) {
            (Some(rest), Some(k)) => Some(rest.push(pool[k])),
            _ => None,
        },
{
    assert(index.take(i + 1).drop_last() =~= index.take(i));
}

/// Looks up each number of `index` in `data_blocks` and returns the blocks
/// found, in index order. A number that names no block is an invariant
/// violation.
pub fn get_data_blocks_by_index(index: &Vec<usize>, data_blocks: &Vec<DataBlock>) -> (res: Result<
    Vec<DataBlock>,
    MdaError,
>)
    ensures
        match spec_resolve(index@, data_blocks.deep_view()) {
            Some(blocks) => res.is_ok() && res.unwrap().deep_view() == blocks,
            None => res == Err::<Vec<DataBlock>, MdaError>(MdaError::InvariantViolated),
        },
{
    let mut result_blocks: Vec<DataBlock> = Vec::new();
    let mut i: usize = 0;
    assert(index@.take(0) =~= Seq::<usize>::empty());
    assert(result_blocks.deep_view() =~= Seq::<BlockSpec>::empty());
    while i < index.len()
        invariant
            0 <= i <= index.len(),
            spec_resolve(index@.take(i as int), data_blocks.deep_view()) == Some(
                result_blocks.deep_view(),
            ),
        decreases index.len() - i,
    {
        let idx = index[i];
        let mut j: usize = 0;
        let mut found: bool = false;
        while j < data_blocks.len()
            invariant_except_break
                0 <= j <= data_blocks.len(),
                !found,
                first_with_number(data_blocks.deep_view(), idx) == first_with_number_from(
                    data_blocks.deep_view(),
                    idx,
                    j as int,
                ),
            ensures
                0 <= j <= data_blocks.len(),
                found ==> j < data_blocks.len(),
                found ==> first_with_number(data_blocks.deep_view(), idx) == Some(j as int),
                !found ==> first_with_number(data_blocks.deep_view(), idx).is_none(),
            decreases data_blocks.len() - j,
        {
            if data_blocks[j].block_number == idx {
                found = true;
                break;
            }
            j = j + 1;
        }
        proof {
            lemma_resolve_step(index@, data_blocks.deep_view(), i as int);
        }
        if !found {
            proof {
                lemma_resolve_none_extends(index@, data_blocks.deep_view(), i as int + 1);
            }
            return Err(MdaError::InvariantViolated);
        }
        let ghost before = result_blocks.deep_view();
        result_blocks.push(data_blocks[j].clone());
        assert(result_blocks.deep_view() =~= before.push(data_blocks.deep_view()[j as int]));
        i = i + 1;
    }
    assert(index@.take(i as int) =~= index@);
    Ok(result_blocks)
}

/// Once a prefix of the index fails to resolve, the whole index fails.
pub proof fn lemma_resolve_none_extends(index: Seq<usize>, pool: Seq<BlockSpec>, i: int)
    requires
        0 <= i <= index.len(),
        spec_resolve(index.take(i), pool).is_none(),
    ensures
        spec_resolve(index, pool).is_none(),
    decreases index.len() - i,
{
    if i < index.len() {
        lemma_resolve_step(index, pool, i);
        lemma_resolve_none_extends(index, pool, i + 1);
    } else {
        assert(index.take(i) =~= index);
    }
}

/// Concatenates the contents of `data_blocks` in order.
pub fn combine_data_blocks(data_blocks: &Vec<DataBlock>) -> (res: Vec<u8>)
    ensures
        res@ == spec_concat(data_blocks.deep_view()),
{
    let mut combined: Vec<u8> = Vec::new();
    let mut i: usize = 0;
    assert(data_blocks.deep_view().take(0) =~= Seq::<BlockSpec>::empty());
    while i < data_blocks.len()
        invariant
            0 <= i <= data_blocks.len(),
            combined@ == spec_concat(data_blocks.deep_view().take(i as int)),
        decreases data_blocks.len() - i,
    {
        assert(data_blocks.deep_view().take(i as int + 1).drop_last() =~= data_blocks.deep_view().take(
            i as int,
        ));
        combined.extend_from_slice(data_blocks[i].data.as_slice());
        i = i + 1;
    }
    assert(data_blocks.deep_view().take(i as int) =~= data_blocks.deep_view());
    combined
}

/// Concatenates the contents of `data_blocks` and reads the result as
/// text. Contents that do not join to valid UTF-8 are rejected.
pub fn combine_data_blocks_to_text(data_blocks: &Vec<DataBlock>) -> (res: Result<String, MdaError>)
    ensures
        valid_utf8(spec_concat(data_blocks.deep_view())) ==> res.is_ok() && encode_utf8(
            res.unwrap()@,
        ) == spec_concat(data_blocks.deep_view()),
        !valid_utf8(spec_concat(data_blocks.deep_view())) ==> res == Err::<String, MdaError>(
            MdaError::CorruptArchive(CorruptReason::InvalidText),
        ),
{
    match string_from_utf8(combine_data_blocks(data_blocks)) {
        Some(text) => Ok(text),
        None => Err(MdaError::CorruptArchive(CorruptReason::InvalidText)),
    }
}

/// Decides whether `pool` holds a block with the content `data`.
pub fn pool_contains_data(pool: &Vec<DataBlock>, data: &[u8]) -> (res: bool)
    ensures
        res == pool_has_data(pool.deep_view(), data@),
{
    let mut j: usize = 0;
    while j < pool.len()
        invariant
            0 <= j <= pool.len(),
            forall|k: int| 0 <= k < j ==> (#[trigger] pool.deep_view()[k]).data != data@,
        decreases pool.len() - j,
    {
        if same_bytes(pool[j].data.as_slice(), data) {
            assert(pool.deep_view()[j as int].data == data@);
            return true;
        }
        j = j + 1;
    }
    false
}

/// Splits `current_data` and keeps the blocks whose content is not yet held
/// by any entry with id at most `id`.
pub fn find_different_blocks(
    id: u8,
    entries: &Vec<Entry>,
    current_data: &[u8],
    block_size: usize,
) -> (res: Vec<DataBlock>)
    requires
        block_size > 0,
    ensures
        res.deep_view() == spec_new_blocks(
            spec_pool(entries.deep_view(), id),
            spec_split(current_data@, block_size as int),
        ),
{
    let blocks1 = get_data_blocks_up_to_id(id, entries);
    let (blocks2, _numbers) = split_data_into_blocks(current_data, block_size);
    let ghost pool = blocks1.deep_view();
    let ghost pred = |b: BlockSpec| !pool_has_data(pool, b.data);
    let mut fresh: Vec<DataBlock> = Vec::new();
    let mut i: usize = 0;
    proof {
        reveal(Seq::filter);
        assert(blocks2.deep_view().take(0) =~= Seq::<BlockSpec>::empty());
        assert(fresh.deep_view() =~= Seq::<BlockSpec>::empty());
    }
    while i < blocks2.len()
        invariant
            0 <= i <= blocks2.len(),
            pool == blocks1.deep_view(),
            pred == (|b: BlockSpec| !pool_has_data(pool, b.data)),
            fresh.deep_view() == blocks2.deep_view().take(i as int).filter(pred),
        decreases blocks2.len() - i,
    {
        let known = pool_contains_data(&blocks1, blocks2[i].data.as_slice());
        proof {
            reveal(Seq::filter);
            assert(blocks2.deep_view().take(i as int + 1).drop_last() =~= blocks2.deep_view().take(
                i as int,
            ));
        }
        if !known {
            let ghost before = fresh.deep_view();
            fresh.push(blocks2[i].clone());
            assert(fresh.deep_view() =~= before.push(blocks2.deep_view()[i as int]));
        }
        i = i + 1;
    }
    assert(blocks2.deep_view().take(i as int) =~= blocks2.deep_view());
    fresh
}

/// Appends `different_blocks` to `block_list`, numbering them upward from
/// the number after the list's last block, and returns the extended list
/// with the numbers handed out. Fails when a number would not fit.
pub fn add_to_block_list(block_list: Vec<DataBlock>, different_blocks: &Vec<DataBlock>) -> (res:
    Result<(Vec<DataBlock>, Vec<usize>), MdaError>)
    ensures
        spec_last_number(block_list.deep_view()) + different_blocks.len() <= usize::MAX ==> {
            &&& res.is_ok()
            &&& res.unwrap().0.deep_view() == block_list.deep_view() + spec_renumber(
                spec_last_number(block_list.deep_view()),
                different_blocks.deep_view(),
            )
            &&& res.unwrap().1@ == Seq::new(
                different_blocks.len() as nat,
                |k: int| (spec_last_number(block_list.deep_view()) + 1 + k) as usize,
            )
        },
        spec_last_number(block_list.deep_view()) + different_blocks.len() > usize::MAX ==> res
            == Err::<(Vec<DataBlock>, Vec<usize>), MdaError>(MdaError::LimitExceeded),
{
    let base: usize = if block_list.len() == 0 {
        0
    } else {
        block_list[block_list.len() - 1].block_number
    };
    assert(base == spec_last_number(block_list.deep_view()));
    if different_blocks.len() > usize::MAX - base {
        return Err(MdaError::LimitExceeded);
    }
    let ghost original = block_list.deep_view();
    let mut list = block_list;
    let mut diff_number: Vec<usize> = Vec::new();
    let mut i: usize = 0;
    assert(list.deep_view() =~= original + spec_renumber(
        base as int,
        different_blocks.deep_view().take(0),
    ));
    while i < different_blocks.len()
        invariant
            0 <= i <= different_blocks.len(),
            base + different_blocks.len() <= usize::MAX,
            diff_number@ == Seq::new(i as nat, |k: int| (base + 1 + k) as usize),
            list.deep_view() == original + spec_renumber(
                base as int,
                different_blocks.deep_view().take(i as int),
            ),
        decreases different_blocks.len() - i,
    {
        let number: usize = base + 1 + i;
        let ghost before = list.deep_view();
        diff_number.push(number);
        list.push(DataBlock::new(number, different_blocks[i].data.clone()));
        proof {
            let added = BlockSpec {
                block_number: number,
                data: different_blocks.deep_view()[i as int].data,
            };
            assert(list.deep_view() =~= before.push(added));
            assert(before.push(added) =~= original + spec_renumber(
                base as int,
                different_blocks.deep_view().take(i as int + 1),
            ));
            assert(diff_number@ =~= Seq::new((i + 1) as nat, |k: int| (base + 1 + k) as usize));
        }
        i = i + 1;
    }
    assert(different_blocks.deep_view().take(i as int) =~= different_blocks.deep_view());
    Ok((list, diff_number))
}

/// Extracting the index for one more block appends the number of the first
/// pool block with the same content, if there is one.
pub proof fn lemma_extract_index_step(current: Seq<BlockSpec>, pool: Seq<BlockSpec>, i: int)
    requires
        0 <= i < current.len(),
    ensures
        spec_extract_index(current.take(i + 1), pool) == match first_with_data(pool, current[i].data) {
            Some(k) => spec_extract_index(current.take(i), pool).push(pool[k].block_number),
            None => spec_extract_index(current.take(i), pool),
        },
{
    assert(current.take(i + 1).drop_last() =~= current.take(i));
}

/// For each block of `vec_data1`, records the number of the first block of
/// `vec_data2` with the same content.
pub fn extract_index(vec_data1: &Vec<DataBlock>, vec_data2: &Vec<DataBlock>) -> (res: Vec<usize>)
    ensures
        res@ == spec_extract_index(vec_data1.deep_view(), vec_data2.deep_view()),
{
    let mut index: Vec<usize> = Vec::new();
    let mut i: usize = 0;
    assert(vec_data1.deep_view().take(0) =~= Seq::<BlockSpec>::empty());
    while i < vec_data1.len()
        invariant
            0 <= i <= vec_data1.len(),
            index@ == spec_extract_index(vec_data1.deep_view().take(i as int), vec_data2.deep_view()),
        decreases vec_data1.len() - i,
    {
        let mut j: usize = 0;
        let mut found: bool = false;
        let ghost wanted = vec_data1.deep_view()[i as int].data;
        while j < vec_data2.len()
            invariant_except_break
                0 <= j <= vec_data2.len(),
                !found,
                first_with_data(vec_data2.deep_view(), wanted) == first_with_data_from(
                    vec_data2.deep_view(),
                    wanted,
                    j as int,
                ),
            invariant
                0 <= i < vec_data1.len(),
                wanted == vec_data1.deep_view()[i as int].data,
            ensures
                0 <= j <= vec_data2.len(),
                found ==> j < vec_data2.len(),
                found ==> first_with_data(vec_data2.deep_view(), wanted) == Some(j as int),
                !found ==> first_with_data(vec_data2.deep_view(), wanted).is_none(),
            decreases vec_data2.len() - j,
        {
            if same_bytes(vec_data1[i].data.as_slice(), vec_data2[j].data.as_slice()) {
                found = true;
                break;
            }
            j = j + 1;
        }
        proof {
            lemma_extract_index_step(vec_data1.deep_view(), vec_data2.deep_view(), i as int);
        }
        if found {
            index.push(vec_data2[j].block_number);
        }
        i = i + 1;
    }
    assert(vec_data1.deep_view().take(i as int) =~= vec_data1.deep_view());
    index
}

} // verus!
