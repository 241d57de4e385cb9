//! Facts about splitting, pools and lookups that the laws of the revision
//! log are proved from.

use crate::block::{block_count, spec_block, spec_split, BlockSpec};
use crate::revlog::model::{
    first_with_data, first_with_number, lemma_first_with_number, spec_concat,
    spec_extract_index, spec_pool, spec_resolve, EntrySpec,
};
use vstd::arithmetic::div_mod::lemma_fundamental_div_mod;
use vstd::arithmetic::mul::{lemma_mul_inequality, lemma_mul_is_commutative};
use vstd::prelude::*;

verus! {

/// Two block sequences carry the same contents, position by position.
pub open spec fn same_data(a: Seq<BlockSpec>, b: Seq<BlockSpec>) -> bool {
    &&& a.len() == b.len()
    &&& forall|t: int| 0 <= t < a.len() ==> (#[trigger] a[t]).data == b[t].data
}

/// Block numbers grow strictly along the sequence.
pub open spec fn numbers_ascending(pool: Seq<BlockSpec>) -> bool {
    forall|a: int, b: int|
        0 <= a < b < pool.len() ==> (#[trigger] pool[a]).block_number < (
        #[trigger] pool[b]).block_number
}

/// The block count is the least `n` with `len <= n * block_size`.
pub proof fn lemma_block_count(len: int, block_size: int)
    requires
        len >= 0,
        block_size > 0,
    ensures
        block_count(len, block_size) >= 0,
        len <= block_count(len, block_size) * block_size,
        len > 0 ==> (block_count(len, block_size) - 1) * block_size < len,
        len == 0 ==> block_count(len, block_size) == 0,
        block_count(len, block_size) <= len,
{
    let n = block_count(len, block_size);
    let x = len + block_size - 1;
    lemma_fundamental_div_mod(x, block_size);
    lemma_mul_is_commutative(block_size, n);
    assert(0 <= x % block_size < block_size) by (nonlinear_arith)
        requires
            block_size > 0,
    ;
    assert((n - 1) * block_size == n * block_size - block_size) by (nonlinear_arith);
    if len == 0 {
        assert(n == 0) by (nonlinear_arith)
            requires
                x == n * block_size + x % block_size,
                0 <= x % block_size < block_size,
                x == block_size - 1,
                block_size > 0,
        ;
    }
    assert(n >= 0) by (nonlinear_arith)
        requires
            x == n * block_size + x % block_size,
            0 <= x % block_size < block_size,
            x >= 0,
            block_size > 0,
    ;
    assert(n <= len) by (nonlinear_arith)
        requires
            x == n * block_size + x % block_size,
            0 <= x % block_size < block_size,
            x == len + block_size - 1,
            block_size > 0,
            len >= 0,
            n >= 0,
    ;
}

/// Every block of a split starts inside the buffer.
pub proof fn lemma_block_start(len: int, block_size: int, k: int)
    requires
        len >= 0,
        block_size > 0,
        0 <= k < block_count(len, block_size),
    ensures
        0 <= k * block_size < len,
{
    lemma_block_count(len, block_size);
    lemma_mul_inequality(k, block_count(len, block_size) - 1, block_size);
    lemma_mul_inequality(0, k, block_size);
}

/// Every block of a split holds at least one byte and at most
/// `block_size` bytes, and is numbered by its position.
pub proof fn lemma_split_blocks(data: Seq<u8>, block_size: int)
    requires
        block_size > 0,
        data.len() <= usize::MAX,
    ensures
        forall|k: int|
            0 <= k < spec_split(data, block_size).len() ==> {
                &&& 1 <= (#[trigger] spec_split(data, block_size)[k]).data.len() <= block_size
                &&& spec_split(data, block_size)[k].data.len() <= data.len()
                &&& spec_split(data, block_size)[k].block_number == k
            },
{
    lemma_block_count(data.len() as int, block_size);
    assert forall|k: int| 0 <= k < spec_split(data, block_size).len() implies {
        &&& 1 <= (#[trigger] spec_split(data, block_size)[k]).data.len() <= block_size
        &&& spec_split(data, block_size)[k].data.len() <= data.len()
        &&& spec_split(data, block_size)[k].block_number == k
    } by {
        lemma_block_start(data.len() as int, block_size, k);
    }
}

/// Concatenation depends on the contents only, not on the numbers.
pub proof fn lemma_concat_same_data(a: Seq<BlockSpec>, b: Seq<BlockSpec>)
    requires
        same_data(a, b),
    ensures
        spec_concat(a) == spec_concat(b),
    decreases a.len(),
{
    if a.len() > 0 {
        lemma_concat_same_data(a.drop_last(), b.drop_last());
    }
}

proof fn lemma_concat_split_prefix(data: Seq<u8>, block_size: int, k: int)
    requires
        block_size > 0,
        0 <= k <= block_count(data.len() as int, block_size),
    ensures
        k < block_count(data.len() as int, block_size) ==> spec_concat(
            spec_split(data, block_size).take(k),
        ) == data.take(k * block_size),
        k == block_count(data.len() as int, block_size) ==> spec_concat(
            spec_split(data, block_size).take(k),
        ) == data,
    decreases k,
{
    let len = data.len() as int;
    let split = spec_split(data, block_size);
    lemma_block_count(len, block_size);
    if k == 0 {
        assert(split.take(0) =~= Seq::<BlockSpec>::empty());
        assert(0 * block_size == 0) by (nonlinear_arith);
        assert(data.take(0) =~= Seq::<u8>::empty());
        if block_count(len, block_size) == 0 {
            assert(data =~= Seq::<u8>::empty());
        }
    } else {
        lemma_concat_split_prefix(data, block_size, k - 1);
        lemma_block_start(len, block_size, k - 1);
        assert(split.take(k).drop_last() =~= split.take(k - 1));
        assert(split.take(k).last() == spec_block(data, block_size, k - 1));
        let start = (k - 1) * block_size;
        assert(k * block_size == start + block_size) by (nonlinear_arith)
            requires
                start == (k - 1) * block_size,
        ;
        if k < block_count(len, block_size) {
            lemma_block_start(len, block_size, k);
            assert(data.take(start) + data.subrange(start, start + block_size) =~= data.take(
                k * block_size,
            ));
        } else {
            if start + block_size <= len {
                assert(start + block_size == len);
                assert(data.take(start) + data.subrange(start, start + block_size) =~= data);
            } else {
                assert(data.take(start) + data.subrange(start, len) =~= data);
            }
        }
    }
}

/// Concatenating the blocks of a split gives the buffer back.
pub proof fn lemma_concat_split(data: Seq<u8>, block_size: int)
    requires
        block_size > 0,
    ensures
        spec_concat(spec_split(data, block_size)) == data,
{
    lemma_block_count(data.len() as int, block_size);
    let n = block_count(data.len() as int, block_size);
    lemma_concat_split_prefix(data, block_size, n);
    assert(spec_split(data, block_size).take(n) =~= spec_split(data, block_size));
}

/// Where block numbers ascend, a number is first found at the one place
/// where it stands.
pub proof fn lemma_ascending_lookup(pool: Seq<BlockSpec>, k: int)
    requires
        numbers_ascending(pool),
        0 <= k < pool.len(),
    ensures
        first_with_number(pool, pool[k].block_number) == Some(k),
{
    lemma_first_with_number(pool, pool[k].block_number, 0);
}

/// An index whose every number is found resolves to the blocks found.
pub proof fn lemma_resolve_all_found(index: Seq<usize>, pool: Seq<BlockSpec>)
    requires
        forall|t: int| 0 <= t < index.len() ==> first_with_number(pool, #[trigger] index[t]).is_some(),
    ensures
        spec_resolve(index, pool) == Some(
            Seq::new(index.len(), |t: int| pool[first_with_number(pool, index[t]).unwrap()]),
        ),
    decreases index.len(),
{
    let found = Seq::new(index.len(), |t: int| pool[first_with_number(pool, index[t]).unwrap()]);
    if index.len() == 0 {
        assert(found =~= Seq::<BlockSpec>::empty());
    } else {
        let shorter = index.drop_last();
        assert forall|t: int| 0 <= t < shorter.len() implies first_with_number(
            pool,
            #[trigger] shorter[t],
        ).is_some() by {
            assert(shorter[t] == index[t]);
        }
        lemma_resolve_all_found(shorter, pool);
        let rest = Seq::new(
            shorter.len(),
            |t: int| pool[first_with_number(pool, shorter[t]).unwrap()],
        );
        assert(first_with_number(pool, index[index.len() - 1]).is_some());
        assert(rest.push(pool[first_with_number(pool, index.last()).unwrap()]) =~= found);
    }
}

/// An index that resolves names only numbers that are found, and resolves
/// to the blocks found.
pub proof fn lemma_resolve_some(index: Seq<usize>, pool: Seq<BlockSpec>)
    requires
        spec_resolve(index, pool).is_some(),
    ensures
        forall|t: int| 0 <= t < index.len() ==> first_with_number(pool, #[trigger] index[t]).is_some(),
        spec_resolve(index, pool).unwrap().len() == index.len(),
        forall|t: int|
            0 <= t < index.len() ==> (#[trigger] spec_resolve(index, pool).unwrap()[t])
                == pool[first_with_number(pool, index[t]).unwrap()],
    decreases index.len(),
{
    if index.len() > 0 {
        let shorter = index.drop_last();
        lemma_resolve_some(shorter, pool);
        assert forall|t: int| 0 <= t < index.len() implies first_with_number(
            pool,
            #[trigger] index[t],
        ).is_some() by {
            if t < shorter.len() {
                assert(shorter[t] == index[t]);
            }
        }
        lemma_resolve_all_found(index, pool);
    }
}

/// Where every block of `current` has its content in `pool`, the extracted
/// index has one number for each block: that of the first pool block with
/// the same content.
pub proof fn lemma_extract_index_all_found(current: Seq<BlockSpec>, pool: Seq<BlockSpec>)
    requires
        forall|t: int|
            0 <= t < current.len() ==> first_with_data(pool, (#[trigger] current[t]).data).is_some(),
    ensures
        spec_extract_index(current, pool) == Seq::new(
            current.len(),
            |t: int| pool[first_with_data(pool, current[t].data).unwrap()].block_number,
        ),
    decreases current.len(),
{
    let numbers = Seq::new(
        current.len(),
        |t: int| pool[first_with_data(pool, current[t].data).unwrap()].block_number,
    );
    if current.len() == 0 {
        assert(numbers =~= Seq::<usize>::empty());
    } else {
        let shorter = current.drop_last();
        assert forall|t: int| 0 <= t < shorter.len() implies first_with_data(
            pool,
            (#[trigger] shorter[t]).data,
        ).is_some() by {
            assert(shorter[t] == current[t]);
        }
        lemma_extract_index_all_found(shorter, pool);
        assert(first_with_data(pool, current[current.len() - 1].data).is_some());
        let rest = Seq::new(
            shorter.len(),
            |t: int| pool[first_with_data(pool, shorter[t].data).unwrap()].block_number,
        );
        assert(rest.push(pool[first_with_data(pool, current.last().data).unwrap()].block_number)
            =~= numbers);
    }
}

/// The whole pool: the blocks of all entries in list order.
pub open spec fn spec_flat(entries: Seq<EntrySpec>) -> Seq<BlockSpec> {
    spec_pool(entries, u8::MAX)
}

/// Entry ids equal list positions.
pub open spec fn ids_sequential(entries: Seq<EntrySpec>) -> bool {
    forall|i: int| 0 <= i < entries.len() ==> (#[trigger] entries[i]).id == i
}

/// Where no id exceeds `id`, the pool up to `id` is the whole pool.
pub proof fn lemma_pool_is_flat(entries: Seq<EntrySpec>, id: u8)
    requires
        forall|j: int| 0 <= j < entries.len() ==> (#[trigger] entries[j]).id <= id,
    ensures
        spec_pool(entries, id) == spec_flat(entries),
    decreases entries.len(),
{
    if entries.len() > 0 {
        let shorter = entries.drop_last();
        assert forall|j: int| 0 <= j < shorter.len() implies (#[trigger] shorter[j]).id <= id by {
            assert(shorter[j] == entries[j]);
        }
        lemma_pool_is_flat(shorter, id);
    }
}

/// The whole pool of a list extended by one entry.
pub proof fn lemma_flat_push(entries: Seq<EntrySpec>, e: EntrySpec)
    ensures
        spec_flat(entries.push(e)) == spec_flat(entries) + e.blocks,
{
    assert(entries.push(e).drop_last() =~= entries);
}

/// The whole pool of a prefix of the list is a prefix of the whole pool.
pub proof fn lemma_flat_take(entries: Seq<EntrySpec>, m: int)
    requires
        0 <= m <= entries.len(),
    ensures
        spec_flat(entries.take(m)).len() <= spec_flat(entries).len(),
        spec_flat(entries.take(m)) == spec_flat(entries).take(spec_flat(entries.take(m)).len() as int),
    decreases entries.len(),
{
    if m == entries.len() {
        assert(entries.take(m) =~= entries);
        assert(spec_flat(entries).take(spec_flat(entries).len() as int) =~= spec_flat(entries));
    } else {
        let shorter = entries.drop_last();
        lemma_flat_take(shorter, m);
        assert(shorter.take(m) =~= entries.take(m));
        let part = spec_flat(entries.take(m));
        assert(spec_flat(entries) == spec_flat(shorter) + entries.last().blocks);
        assert(part =~= spec_flat(entries).take(part.len() as int));
    }
}

/// Each block of entry `i` stands in the whole pool of the first `i + 1`
/// entries, after the blocks of the entries before it.
pub proof fn lemma_flat_holds_blocks(entries: Seq<EntrySpec>, i: int)
    requires
        0 <= i < entries.len(),
    ensures
        spec_flat(entries.take(i + 1)) == spec_flat(entries.take(i)) + entries[i].blocks,
{
    assert(entries.take(i + 1).drop_last() =~= entries.take(i));
}

} // verus!
