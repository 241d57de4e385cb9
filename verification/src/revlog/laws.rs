//! The invariants of a revision log, and the laws that relate creating,
//! appending and rebuilding.

use crate::block::{spec_split, BlockSpec};
use crate::error::MdaError;
use crate::hash::{spec_nodeid, NULLID};
use crate::revlog::lemmas::{
    ids_sequential, lemma_ascending_lookup, lemma_block_count, lemma_concat_same_data,
    lemma_concat_split, lemma_extract_index_all_found, lemma_flat_holds_blocks, lemma_flat_push,
    lemma_flat_take, lemma_pool_is_flat, lemma_resolve_all_found,
    lemma_resolve_some, numbers_ascending, same_data, spec_flat,
};
use crate::revlog::model::{
    first_entry_with_id, first_with_data, first_with_number, lemma_first_entry_with_id,
    lemma_first_with_data, lemma_first_with_number, pool_has_data, spec_concat,
    spec_extract_index, spec_last_number, spec_new_blocks, spec_pool, spec_renumber,
    spec_resolve, EntrySpec, HeaderSpec,
};
use crate::revlog::ops::{
    spec_add, spec_add_error, spec_first_entry, spec_first_header, spec_fresh_blocks,
    spec_full_data, spec_next_entry, spec_next_header, spec_reconstruct,
};
use vstd::prelude::*;

verus! {

/// The payload of revision `i`, or the empty string where it cannot be
/// rebuilt.
pub open spec fn spec_payload(entries: Seq<EntrySpec>, i: int) -> Seq<u8> {
    match spec_full_data(i as u8, entries) {
        Ok(data) => data,
        Err(_) => Seq::empty(),
    }
}

/// Every number in the index of revision `i` names a block contributed by
/// the revisions `0..=i`.
pub open spec fn indexes_resolve(entries: Seq<EntrySpec>) -> bool {
    forall|i: int|
        0 <= i < entries.len() ==> spec_resolve(
            (#[trigger] entries[i]).index,
            spec_pool(entries, i as u8),
        ).is_some()
}

/// No block of a revision repeats the content of a block of an earlier
/// revision.
pub open spec fn deduplicated(entries: Seq<EntrySpec>) -> bool {
    forall|i: int, j: int, a: int, b: int|
        0 <= i < j < entries.len() && 0 <= a < entries[i].blocks.len() && 0 <= b
            < entries[j].blocks.len() ==> (#[trigger] entries[i].blocks[a]).data != (
        #[trigger] entries[j].blocks[b]).data
}

/// The invariant of the entries of a revision log.
pub open spec fn entries_wf(entries: Seq<EntrySpec>) -> bool {
    &&& entries.len() >= 1
    &&& ids_sequential(entries)
    &&& numbers_ascending(spec_flat(entries))
    &&& indexes_resolve(entries)
    &&& deduplicated(entries)
}

/// The invariant that ties the headers of a revision log to its entries.
pub open spec fn headers_wf(headers: Seq<HeaderSpec>, entries: Seq<EntrySpec>) -> bool {
    &&& headers.len() == entries.len()
    &&& forall|i: int| 0 <= i < headers.len() ==> (#[trigger] headers[i]).rev == i
    &&& forall|i: int|
        0 <= i < headers.len() ==> (#[trigger] headers[i]).nodeid == spec_nodeid(
            NULLID@,
            NULLID@,
            spec_payload(entries, i),
        )
    &&& forall|i: int| 0 <= i < headers.len() ==> (#[trigger] headers[i]).p2rev == NULLID@
    &&& forall|i: int|
        0 <= i < headers.len() ==> (#[trigger] headers[i]).p1rev == if i == 0 {
            NULLID@
        } else {
            headers[0].nodeid
        }
    &&& forall|i: int|
        0 <= i < headers.len() ==> (#[trigger] headers[i]).linkrev == if i == 0 {
            0
        } else {
            i - 1
        }
}

/// The invariant of a revision log.
pub open spec fn log_wf(headers: Seq<HeaderSpec>, entries: Seq<EntrySpec>) -> bool {
    entries_wf(entries) && headers_wf(headers, entries)
}

/// The blocks that rebuild each revision are, by content, the positional
/// split of its payload at `block_size`.
pub open spec fn aligned(entries: Seq<EntrySpec>, block_size: int) -> bool {
    forall|i: int|
        0 <= i < entries.len() ==> same_data(
            spec_resolve((#[trigger] entries[i]).index, spec_pool(entries, i as u8)).unwrap(),
            spec_split(spec_payload(entries, i), block_size),
        )
}

/// With sequential ids, revision `i` is found at position `i`.
pub proof fn lemma_entry_position(entries: Seq<EntrySpec>, i: int)
    requires
        ids_sequential(entries),
        0 <= i < entries.len(),
    ensures
        first_entry_with_id(entries, i as u8) == Some(i),
{
    lemma_first_entry_with_id(entries, i as u8, 0);
    assert(entries[i].id == i);
}

/// A log made by `init` satisfies the invariant, and its revision zero
/// rebuilds to the content it was made from.
pub proof fn lemma_init_well_formed(content: Seq<u8>, block_size: int)
    requires
        block_size > 0,
        content.len() <= usize::MAX,
    ensures
        log_wf(seq![spec_first_header(content)], seq![spec_first_entry(content, block_size)]),
        aligned(seq![spec_first_entry(content, block_size)], block_size),
        spec_full_data(0, seq![spec_first_entry(content, block_size)]) == Ok::<Seq<u8>, MdaError>(
            content,
        ),
{
    let entry = spec_first_entry(content, block_size);
    let entries = seq![entry];
    let split = spec_split(content, block_size);
    lemma_block_count(content.len() as int, block_size);
    assert(entries.drop_last() =~= Seq::<EntrySpec>::empty());
    assert(entries.last() == entry);
    assert(spec_pool(Seq::<EntrySpec>::empty(), 0) =~= Seq::<BlockSpec>::empty());
    assert(spec_pool(Seq::<EntrySpec>::empty(), u8::MAX) =~= Seq::<BlockSpec>::empty());
    assert(spec_pool(entries, 0) =~= split);
    assert(spec_flat(entries) =~= split);
    assert(numbers_ascending(split));
    assert forall|t: int| 0 <= t < entry.index.len() implies first_with_number(
        split,
        #[trigger] entry.index[t],
    ) == Some(t) by {
        lemma_ascending_lookup(split, t);
    }
    lemma_resolve_all_found(entry.index, split);
    assert(spec_resolve(entry.index, split).unwrap() =~= split);
    lemma_concat_split(content, block_size);
    lemma_first_entry_with_id(entries, 0, 0);
    assert(spec_full_data(0, entries) == Ok::<Seq<u8>, MdaError>(content));
    assert(spec_payload(entries, 0) == content);
}

/// Appending freshly numbered blocks keeps the numbers ascending.
pub proof fn lemma_records_ascending(pool: Seq<BlockSpec>, news: Seq<BlockSpec>)
    requires
        numbers_ascending(pool),
        spec_last_number(pool) + news.len() <= usize::MAX,
    ensures
        numbers_ascending(pool + spec_renumber(spec_last_number(pool), news)),
{
    let base = spec_last_number(pool);
    let fresh = spec_renumber(base, news);
    let records = pool + fresh;
    assert forall|a: int, b: int| 0 <= a < b < records.len() implies (
    #[trigger] records[a]).block_number < (#[trigger] records[b]).block_number by {
        if b < pool.len() {
            assert(records[a] == pool[a]);
            assert(records[b] == pool[b]);
        } else if a < pool.len() {
            assert(records[a] == pool[a]);
            assert(records[b] == fresh[b - pool.len()]);
            if a < pool.len() - 1 {
                assert(pool[a].block_number < pool[pool.len() - 1].block_number);
            }
        } else {
            assert(records[a] == fresh[a - pool.len()]);
            assert(records[b] == fresh[b - pool.len()]);
        }
    }
}

/// After the new blocks of `current` have joined the pool, every block of
/// `current` has its content in the pool.
pub proof fn lemma_current_found(pool: Seq<BlockSpec>, current: Seq<BlockSpec>, base: int)
    ensures
        forall|t: int|
            0 <= t < current.len() ==> first_with_data(
                pool + spec_renumber(base, spec_new_blocks(pool, current)),
                (#[trigger] current[t]).data,
            ).is_some(),
{
    let pred = |b: BlockSpec| !pool_has_data(pool, b.data);
    let news = spec_new_blocks(pool, current);
    let fresh = spec_renumber(base, news);
    let records = pool + fresh;
    assert forall|t: int| 0 <= t < current.len() implies first_with_data(
        records,
        (#[trigger] current[t]).data,
    ).is_some() by {
        let d = current[t].data;
        lemma_first_with_data(records, d, 0);
        if pool_has_data(pool, d) {
            let k = choose|k: int| 0 <= k < pool.len() && #[trigger] pool[k].data == d;
            assert(records[k] == pool[k]);
        } else {
            assert(pred(current[t]));
            current.lemma_filter_contains(pred, t);
            let m = choose|m: int| 0 <= m < news.len() && news[m] == current[t];
            assert(fresh[m].data == d);
            assert(records[pool.len() + m] == fresh[m]);
        }
    }
}

/// An index extracted against a pool with ascending numbers resolves, in
/// that pool, to blocks with the contents it was extracted for.
pub proof fn lemma_new_index_resolves(current: Seq<BlockSpec>, records: Seq<BlockSpec>)
    requires
        numbers_ascending(records),
        forall|t: int|
            0 <= t < current.len() ==> first_with_data(records, (#[trigger] current[t]).data).is_some(),
    ensures
        spec_resolve(spec_extract_index(current, records), records).is_some(),
        same_data(spec_resolve(spec_extract_index(current, records), records).unwrap(), current),
{
    let index = spec_extract_index(current, records);
    lemma_extract_index_all_found(current, records);
    assert forall|t: int| 0 <= t < index.len() implies first_with_number(
        records,
        #[trigger] index[t],
    ) == Some(first_with_data(records, current[t].data).unwrap()) by {
        let k = first_with_data(records, current[t].data).unwrap();
        lemma_first_with_data(records, current[t].data, 0);
        lemma_ascending_lookup(records, k);
    }
    lemma_resolve_all_found(index, records);
    let resolved = spec_resolve(index, records).unwrap();
    assert forall|t: int| 0 <= t < resolved.len() implies (#[trigger] resolved[t]).data
        == current[t].data by {
        lemma_first_with_data(records, current[t].data, 0);
    }
}

/// Each block of each entry stands somewhere in the whole pool.
pub proof fn lemma_block_in_flat(entries: Seq<EntrySpec>, i: int, a: int)
    requires
        0 <= i < entries.len(),
        0 <= a < entries[i].blocks.len(),
    ensures
        exists|k: int|
            0 <= k < spec_flat(entries).len() && #[trigger] spec_flat(entries)[k]
                == entries[i].blocks[a],
{
    lemma_flat_holds_blocks(entries, i);
    lemma_flat_take(entries, i + 1);
    let k = spec_flat(entries.take(i)).len() + a;
    assert(spec_flat(entries.take(i + 1))[k] == entries[i].blocks[a]);
    assert(spec_flat(entries)[k] == entries[i].blocks[a]);
}

/// Appending a revision keeps the invariant of the entries, leaves every
/// earlier revision's payload as it was, and makes the new revision
/// rebuild to the content that was appended.
pub proof fn lemma_add_entries(
    content: Seq<u8>,
    block_size: int,
    entries: Seq<EntrySpec>,
    headers: Seq<HeaderSpec>,
)
    requires
        block_size > 0,
        entries_wf(entries),
        spec_add_error(content, block_size, entries, headers).is_none(),
    ensures
        ({
            let grown = entries.push(spec_next_entry(content, block_size, entries));
            &&& entries_wf(grown)
            &&& spec_full_data(entries.len() as u8, grown) == Ok::<Seq<u8>, MdaError>(content)
            &&& forall|id: u8|
                id < entries.len() ==> #[trigger] spec_full_data(id, grown) == spec_full_data(
                    id,
                    entries,
                )
            &&& aligned(entries, block_size) ==> aligned(grown, block_size)
        }),
{
    let n = entries.len() as int;
    let last_id = entries.last().id;
    assert(entries[n - 1].id == n - 1);
    let pool = spec_pool(entries, last_id);
    assert forall|j: int| 0 <= j < entries.len() implies (#[trigger] entries[j]).id <= last_id by {}
    lemma_pool_is_flat(entries, last_id);
    let current = spec_split(content, block_size);
    let news = spec_new_blocks(pool, current);
    let base = spec_last_number(pool);
    let fresh = spec_renumber(base, news);
    assert(fresh == spec_fresh_blocks(content, block_size, entries));
    let records = pool + fresh;
    let entry = spec_next_entry(content, block_size, entries);
    let grown = entries.push(entry);
    assert(entry.id == n);
    assert(grown.drop_last() =~= entries);
    assert(grown.last() == entry);

    assert(ids_sequential(grown)) by {
        assert forall|i: int| 0 <= i < grown.len() implies (#[trigger] grown[i]).id == i by {
            if i < n {
                assert(grown[i] == entries[i]);
            }
        }
    }
    lemma_flat_push(entries, entry);
    lemma_records_ascending(pool, news);
    assert(spec_flat(grown) == records);

    assert forall|id: u8| id < n implies #[trigger] spec_pool(grown, id) == spec_pool(entries, id) by {}
    assert forall|j: int| 0 <= j < entries.len() implies (#[trigger] entries[j]).id <= n as u8 by {}
    lemma_pool_is_flat(entries, n as u8);
    assert(spec_pool(grown, n as u8) == records);

    lemma_current_found(pool, current, base);
    lemma_new_index_resolves(current, records);
    let resolved = spec_resolve(entry.index, records).unwrap();

    assert(indexes_resolve(grown)) by {
        assert forall|i: int| 0 <= i < grown.len() implies spec_resolve(
            (#[trigger] grown[i]).index,
            spec_pool(grown, i as u8),
        ).is_some() by {
            if i < n {
                assert(grown[i] == entries[i]);
            }
        }
    }

    assert(deduplicated(grown)) by {
        let pred = |b: BlockSpec| !pool_has_data(pool, b.data);
        assert forall|i: int, j: int, a: int, b: int|
            0 <= i < j < grown.len() && 0 <= a < grown[i].blocks.len() && 0 <= b
                < grown[j].blocks.len() implies (#[trigger] grown[i].blocks[a]).data != (
        #[trigger] grown[j].blocks[b]).data by {
            assert(grown[i] == entries[i]);
            if j < n {
                assert(grown[j] == entries[j]);
            } else {
                assert(grown[j].blocks[b].data == news[b].data);
                current.lemma_filter_pred(pred, b);
                assert(!pool_has_data(pool, news[b].data));
                lemma_block_in_flat(entries, i, a);
                let k = choose|k: int|
                    0 <= k < spec_flat(entries).len() && #[trigger] spec_flat(entries)[k]
                        == entries[i].blocks[a];
                assert(pool[k].data == entries[i].blocks[a].data);
            }
        }
    }

    lemma_entry_position(grown, n);
    lemma_concat_same_data(resolved, current);
    lemma_concat_split(content, block_size);
    assert(spec_full_data(n as u8, grown) == Ok::<Seq<u8>, MdaError>(content));

    assert forall|id: u8| id < n implies #[trigger] spec_full_data(id, grown) == spec_full_data(
        id,
        entries,
    ) by {
        lemma_entry_position(grown, id as int);
        lemma_entry_position(entries, id as int);
        assert(grown[id as int] == entries[id as int]);
    }

    if aligned(entries, block_size) {
        assert forall|i: int| 0 <= i < grown.len() implies same_data(
            spec_resolve((#[trigger] grown[i]).index, spec_pool(grown, i as u8)).unwrap(),
            spec_split(spec_payload(grown, i), block_size),
        ) by {
            if i < n {
                assert(grown[i] == entries[i]);
                assert(spec_payload(grown, i) == spec_payload(entries, i));
            } else {
                assert(spec_payload(grown, i) == content);
            }
        }
    }
}

/// Appending a revision keeps the invariant of the log. The new revision
/// rebuilds to the appended content, and every earlier revision rebuilds to
/// what it rebuilt to before.
pub proof fn lemma_add_well_formed(
    content: Seq<u8>,
    block_size: int,
    entries: Seq<EntrySpec>,
    headers: Seq<HeaderSpec>,
)
    requires
        block_size > 0,
        log_wf(headers, entries),
        spec_add(content, block_size, entries, headers).is_ok(),
    ensures
        ({
            let log = spec_add(content, block_size, entries, headers).unwrap();
            &&& log_wf(log.0, log.1)
            &&& log.1.len() == entries.len() + 1
            &&& log.1.take(entries.len() as int) == entries
            &&& log.0.take(headers.len() as int) == headers
            &&& spec_full_data(entries.len() as u8, log.1) == Ok::<Seq<u8>, MdaError>(content)
            &&& forall|id: u8|
                id < entries.len() ==> #[trigger] spec_full_data(id, log.1) == spec_full_data(
                    id,
                    entries,
                )
            &&& aligned(entries, block_size) ==> aligned(log.1, block_size)
        }),
{
    lemma_add_entries(content, block_size, entries, headers);
    let n = entries.len() as int;
    let grown = entries.push(spec_next_entry(content, block_size, entries));
    let header = spec_next_header(content, entries, headers);
    let extended = headers.push(header);
    assert(entries[n - 1].id == n - 1);
    assert(grown.take(n) =~= entries);
    assert(extended.take(n) =~= headers);
    assert(spec_payload(grown, n) == content);
    assert forall|i: int| 0 <= i < n implies spec_payload(grown, i) == spec_payload(entries, i) by {}
    assert forall|i: int| 0 <= i < extended.len() implies (#[trigger] extended[i]).nodeid
        == spec_nodeid(NULLID@, NULLID@, spec_payload(grown, i)) by {
        if i < n {
            assert(extended[i] == headers[i]);
        }
    }
    assert forall|i: int| 0 <= i < extended.len() implies (#[trigger] extended[i]).p1rev == if i
        == 0 {
        NULLID@
    } else {
        extended[0].nodeid
    } by {
        assert(extended[0] == headers[0]);
        if i < n {
            assert(extended[i] == headers[i]);
        } else {
            assert(headers[n - 1].p1rev == if n - 1 == 0 {
                NULLID@
            } else {
                headers[0].nodeid
            });
        }
    }
    assert forall|i: int| 0 <= i < extended.len() implies (#[trigger] extended[i]).linkrev == if i
        == 0 {
        0
    } else {
        i - 1
    } by {
        if i < n {
            assert(extended[i] == headers[i]);
        }
    }
    assert forall|i: int| 0 <= i < extended.len() implies (#[trigger] extended[i]).rev == i by {
        if i < n {
            assert(extended[i] == headers[i]);
        }
    }
    assert forall|i: int| 0 <= i < extended.len() implies (#[trigger] extended[i]).p2rev
        == NULLID@ by {
        if i < n {
            assert(extended[i] == headers[i]);
        }
    }
}

/// The log that results from starting with `payloads[0]` and appending the
/// other payloads in order.
pub open spec fn spec_history(payloads: Seq<Seq<u8>>, block_size: int) -> Result<
    (Seq<HeaderSpec>, Seq<EntrySpec>),
    MdaError,
>
    decreases payloads.len(),
{
    if payloads.len() <= 1 {
        Ok((seq![spec_first_header(payloads[0])], seq![spec_first_entry(payloads[0], block_size)]))
    } else {
        match spec_history(payloads.drop_last(), block_size) {
            Ok(log) => spec_add(payloads.last(), block_size, log.1, log.0),
            Err(e) => Err(e),
        }
    }
}

/// Every revision of a log rebuilds to the payload that was supplied for
/// it: revision `i` of the log made from `payloads` is `payloads[i]`, and
/// the latest revision is the last payload. Headers and entries are paired,
/// with revision numbers `0, 1, 2, ...`, and each header's node id is the
/// digest of its revision's payload under null parents.
pub proof fn lemma_history_reconstructs(payloads: Seq<Seq<u8>>, block_size: int)
    requires
        block_size > 0,
        payloads.len() >= 1,
        payloads[0].len() <= u32::MAX,
        spec_history(payloads, block_size).is_ok(),
    ensures
        ({
            let log = spec_history(payloads, block_size).unwrap();
            &&& log_wf(log.0, log.1)
            &&& aligned(log.1, block_size)
            &&& log.0.len() == payloads.len()
            &&& log.1.len() == payloads.len()
            &&& forall|i: int|
                0 <= i < payloads.len() ==> spec_reconstruct(i as i32, log.1) == Ok::<
                    Seq<u8>,
                    MdaError,
                >(#[trigger] payloads[i])
            &&& forall|i: int|
                0 <= i < payloads.len() ==> (#[trigger] log.0[i]).nodeid == spec_nodeid(
                    NULLID@,
                    NULLID@,
                    payloads[i],
                )
            &&& spec_reconstruct(-1i32, log.1) == Ok::<Seq<u8>, MdaError>(payloads.last())
        }),
    decreases payloads.len(),
{
    let log = spec_history(payloads, block_size).unwrap();
    if payloads.len() == 1 {
        lemma_init_well_formed(payloads[0], block_size);
        assert(spec_payload(log.1, 0) == payloads[0]);
    } else {
        let earlier = payloads.drop_last();
        lemma_history_reconstructs(earlier, block_size);
        let before = spec_history(earlier, block_size).unwrap();
        lemma_add_well_formed(payloads.last(), block_size, before.1, before.0);
        let n = before.1.len() as int;
        assert forall|i: int| 0 <= i < payloads.len() implies spec_reconstruct(i as i32, log.1)
            == Ok::<Seq<u8>, MdaError>(#[trigger] payloads[i]) by {
            if i < n {
                assert(earlier[i] == payloads[i]);
                assert(spec_reconstruct(i as i32, before.1) == Ok::<Seq<u8>, MdaError>(earlier[i]));
                assert(spec_full_data(i as u8, log.1) == spec_full_data(i as u8, before.1));
            }
        }
        assert forall|i: int| 0 <= i < payloads.len() implies (#[trigger] log.0[i]).nodeid
            == spec_nodeid(NULLID@, NULLID@, payloads[i]) by {
            assert(spec_reconstruct(i as i32, log.1) == Ok::<Seq<u8>, MdaError>(payloads[i]));
            assert(spec_payload(log.1, i) == payloads[i]);
        }
    }
    assert(log.1[log.1.len() - 1].id == log.1.len() - 1);
    assert(spec_reconstruct((payloads.len() - 1) as i32, log.1) == Ok::<Seq<u8>, MdaError>(
        payloads[payloads.len() - 1],
    ));
}

/// Appending the latest payload once more adds a revision and nothing
/// else: the new entry brings no blocks, its index names blocks that the
/// pool already held, the earlier entries are untouched, and the latest
/// revision still rebuilds to the same payload.
pub proof fn lemma_add_latest_again(
    block_size: int,
    entries: Seq<EntrySpec>,
    headers: Seq<HeaderSpec>,
)
    requires
        block_size > 0,
        log_wf(headers, entries),
        aligned(entries, block_size),
        spec_add(spec_payload(entries, entries.len() - 1), block_size, entries, headers).is_ok(),
    ensures
        ({
            let content = spec_payload(entries, entries.len() - 1);
            let log = spec_add(content, block_size, entries, headers).unwrap();
            &&& log_wf(log.0, log.1)
            &&& log.1.len() == entries.len() + 1
            &&& log.1.take(entries.len() as int) == entries
            &&& log.1.last().blocks.len() == 0
            &&& spec_resolve(log.1.last().index, spec_flat(entries)).is_some()
            &&& spec_reconstruct(-1i32, log.1) == Ok::<Seq<u8>, MdaError>(content)
            &&& spec_reconstruct(-1i32, entries) == Ok::<Seq<u8>, MdaError>(content)
        }),
{
    let n = entries.len() as int;
    let content = spec_payload(entries, n - 1);
    let log = spec_add(content, block_size, entries, headers).unwrap();
    let last_id = entries.last().id;
    assert(entries[n - 1].id == n - 1);
    let pool = spec_pool(entries, last_id);
    assert forall|j: int| 0 <= j < entries.len() implies (#[trigger] entries[j]).id <= last_id by {}
    lemma_pool_is_flat(entries, last_id);
    let index = entries[n - 1].index;
    let resolved = spec_resolve(index, pool).unwrap();
    lemma_entry_position(entries, n - 1);
    assert(content == spec_concat(resolved));
    let current = spec_split(content, block_size);
    assert(same_data(resolved, current));
    lemma_resolve_some(index, pool);
    let pred = |b: BlockSpec| !pool_has_data(pool, b.data);
    assert forall|t: int| 0 <= t < current.len() implies !pred(#[trigger] current[t]) by {
        lemma_first_with_number(pool, index[t], 0);
        let k = first_with_number(pool, index[t]).unwrap();
        assert(resolved[t] == pool[k]);
        assert(pool[k].data == current[t].data);
    }
    assert(current.all(|x: BlockSpec| !pred(x)));
    current.lemma_all_neg_filter_empty(pred);
    let fresh = spec_fresh_blocks(content, block_size, entries);
    assert(fresh.len() == 0);
    assert(pool + fresh =~= pool);
    lemma_add_well_formed(content, block_size, entries, headers);
    lemma_current_found(pool, current, spec_last_number(pool));
    lemma_new_index_resolves(current, pool + fresh);
    assert(log.1[n].id == n);
    assert(log.1.last() == log.1[n]);
}

/// The entry appended for a payload that fits the header's length field is
/// no longer than the payload: it has at most one index number and one
/// block for each byte, and no block is longer than the block size.
pub proof fn lemma_next_entry_bounded(content: Seq<u8>, block_size: int, entries: Seq<EntrySpec>)
    requires
        block_size > 0,
        content.len() <= u32::MAX,
    ensures
        ({
            let entry = spec_next_entry(content, block_size, entries);
            &&& entry.index.len() <= content.len()
            &&& entry.blocks.len() <= content.len()
            &&& forall|k: int|
                0 <= k < entry.blocks.len() ==> (#[trigger] entry.blocks[k]).data.len()
                    <= block_size && entry.blocks[k].data.len() <= content.len()
        }),
{
    let pool = spec_pool(entries, entries.last().id);
    let current = spec_split(content, block_size);
    let pred = |b: BlockSpec| !pool_has_data(pool, b.data);
    let news = spec_new_blocks(pool, current);
    let base = spec_last_number(pool);
    let fresh = spec_renumber(base, news);
    let entry = spec_next_entry(content, block_size, entries);
    lemma_block_count(content.len() as int, block_size);
    crate::revlog::lemmas::lemma_split_blocks(content, block_size);
    current.lemma_filter_len(pred);
    lemma_current_found(pool, current, base);
    lemma_extract_index_all_found(current, pool + fresh);
    assert forall|k: int| 0 <= k < entry.blocks.len() implies (#[trigger] entry.blocks[k]).data.len()
        <= block_size && entry.blocks[k].data.len() <= content.len() by {
        assert(entry.blocks[k].data == news[k].data);
        assert(news.contains(news[k]));
        current.lemma_filter_contains_rev(pred, news[k]);
        let j = choose|j: int| 0 <= j < current.len() && current[j] == news[k];
        assert(current[j].data.len() <= block_size);
        assert(current[j].data.len() <= content.len());
    }
}

/// Revision numbers equal list positions.
pub open spec fn revs_sequential(headers: Seq<HeaderSpec>) -> bool {
    forall|i: int| 0 <= i < headers.len() ==> (#[trigger] headers[i]).rev == i
}

/// No block of `blocks` has the content of a block of any of `entries`.
pub open spec fn new_to(entries: Seq<EntrySpec>, blocks: Seq<BlockSpec>) -> bool {
    forall|i: int, a: int, b: int|
        0 <= i < entries.len() && 0 <= a < entries[i].blocks.len() && 0 <= b < blocks.len() ==> (
        #[trigger] entries[i].blocks[a]).data != (#[trigger] blocks[b]).data
}

/// What appending a revision with payload `content` to `headers` and
/// `entries` gives, whatever the state of the log: one more header and one
/// more entry after those that were there, numbered one above the last
/// entry, the header's node id being the digest of the whole payload under
/// null parents. Where ids equal positions, the blocks of the new entry are
/// new to every earlier entry; where headers and entries are paired and
/// numbered by position, they still are.
pub open spec fn appended(
    content: Seq<u8>,
    headers: Seq<HeaderSpec>,
    entries: Seq<EntrySpec>,
    grown_headers: Seq<HeaderSpec>,
    grown_entries: Seq<EntrySpec>,
) -> bool {
    &&& entries.len() >= 1
    &&& grown_headers.len() == headers.len() + 1
    &&& grown_entries.len() == entries.len() + 1
    &&& grown_headers.take(headers.len() as int) == headers
    &&& grown_entries.take(entries.len() as int) == entries
    &&& grown_entries.last().id == entries.last().id + 1
    &&& grown_headers.last().rev == entries.last().id + 1
    &&& grown_headers.last().length == content.len()
    &&& grown_headers.last().nodeid == spec_nodeid(NULLID@, NULLID@, content)
    &&& ids_sequential(entries) ==> new_to(entries, grown_entries.last().blocks)
    &&& headers.len() == entries.len() && ids_sequential(entries) && revs_sequential(headers) ==> {
        &&& grown_headers.len() == grown_entries.len()
        &&& ids_sequential(grown_entries)
        &&& revs_sequential(grown_headers)
    }
}

/// The first revision: one header and one entry, both numbered zero, the
/// header's node id being the digest of the whole content under null
/// parents.
pub proof fn lemma_init_pairs(content: Seq<u8>, block_size: int)
    ensures
        ({
            let headers = seq![spec_first_header(content)];
            let entries = seq![spec_first_entry(content, block_size)];
            &&& headers.len() == 1
            &&& entries.len() == 1
            &&& headers[0].rev == 0
            &&& entries[0].id == 0
            &&& headers[0].nodeid == spec_nodeid(NULLID@, NULLID@, content)
            &&& ids_sequential(entries)
            &&& revs_sequential(headers)
        }),
{
}

/// Appending succeeds on a paired log with fewer than 256 revisions, unless
/// the content is too long for the header's length field or a block number
/// would not fit; and where it succeeds, it gives what `appended` says.
pub proof fn lemma_add_appends(
    content: Seq<u8>,
    block_size: int,
    entries: Seq<EntrySpec>,
    headers: Seq<HeaderSpec>,
)
    ensures
        spec_add(content, block_size, entries, headers).is_ok() ==> appended(
            content,
            headers,
            entries,
            spec_add(content, block_size, entries, headers).unwrap().0,
            spec_add(content, block_size, entries, headers).unwrap().1,
        ),
        entries.len() >= 1 && headers.len() == entries.len() && ids_sequential(entries) ==> (
        spec_add(content, block_size, entries, headers).is_ok() <==> {
            let pool = spec_pool(entries, entries.last().id);
            &&& entries.len() <= u8::MAX
            &&& content.len() <= u32::MAX
            &&& spec_last_number(pool) + spec_new_blocks(pool, spec_split(content, block_size)).len()
                <= usize::MAX
        }),
{
    if entries.len() >= 1 {
        assert(entries.last() == entries[entries.len() - 1]);
    }
    if spec_add(content, block_size, entries, headers).is_ok() {
        let log = spec_add(content, block_size, entries, headers).unwrap();
        let n = entries.len() as int;
        let last_id = entries.last().id;
        let entry = spec_next_entry(content, block_size, entries);
        assert(log.0.take(headers.len() as int) =~= headers);
        assert(log.1.take(n) =~= entries);
        assert(log.1.last() == entry);
        if ids_sequential(entries) {
            let pool = spec_pool(entries, last_id);
            let current = spec_split(content, block_size);
            let news = spec_new_blocks(pool, current);
            let pred = |b: BlockSpec| !pool_has_data(pool, b.data);
            assert(entries[n - 1].id == n - 1);
            assert forall|j: int| 0 <= j < entries.len() implies (#[trigger] entries[j]).id
                <= last_id by {}
            lemma_pool_is_flat(entries, last_id);
            assert forall|i: int, a: int, b: int|
                0 <= i < entries.len() && 0 <= a < entries[i].blocks.len() && 0 <= b
                    < entry.blocks.len() implies (#[trigger] entries[i].blocks[a]).data != (
            #[trigger] entry.blocks[b]).data by {
                assert(entry.blocks[b].data == news[b].data);
                current.lemma_filter_pred(pred, b);
                lemma_block_in_flat(entries, i, a);
                let k = choose|k: int|
                    0 <= k < spec_flat(entries).len() && #[trigger] spec_flat(entries)[k]
                        == entries[i].blocks[a];
                assert(pool[k].data == entries[i].blocks[a].data);
            }
            if headers.len() == entries.len() && revs_sequential(headers) {
                assert forall|i: int| 0 <= i < log.1.len() implies (#[trigger] log.1[i]).id == i by {
                    if i < n {
                        assert(log.1[i] == entries[i]);
                    }
                }
                assert forall|i: int| 0 <= i < log.0.len() implies (#[trigger] log.0[i]).rev == i by {
                    if i < n {
                        assert(log.0[i] == headers[i]);
                    }
                }
            }
        }
    }
}

/// In a log that was made by `init` and `add`, appending the latest
/// payload once more adds a revision and nothing else: the new entry brings
/// no blocks, its index names blocks that the pool already held, the
/// earlier entries are untouched, and the latest revision rebuilds to the
/// same payload.
pub proof fn lemma_history_add_latest_again(payloads: Seq<Seq<u8>>, block_size: int)
    requires
        block_size > 0,
        payloads.len() >= 1,
        payloads[0].len() <= u32::MAX,
        spec_history(payloads, block_size).is_ok(),
        spec_add(
            payloads.last(),
            block_size,
            spec_history(payloads, block_size).unwrap().1,
            spec_history(payloads, block_size).unwrap().0,
        ).is_ok(),
    ensures
        ({
            let before = spec_history(payloads, block_size).unwrap();
            let log = spec_add(payloads.last(), block_size, before.1, before.0).unwrap();
            &&& log.1.len() == payloads.len() + 1
            &&& log.1.take(payloads.len() as int) == before.1
            &&& log.1.last().blocks.len() == 0
            &&& spec_resolve(log.1.last().index, spec_flat(before.1)).is_some()
            &&& spec_reconstruct(-1i32, log.1) == Ok::<Seq<u8>, MdaError>(payloads.last())
            &&& spec_reconstruct(payloads.len() as i32, log.1) == Ok::<Seq<u8>, MdaError>(
                payloads.last(),
            )
            &&& log_wf(log.0, log.1)
        }),
{
    let before = spec_history(payloads, block_size).unwrap();
    let n = payloads.len() as int;
    lemma_history_reconstructs(payloads, block_size);
    assert(before.1[n - 1].id == n - 1);
    assert(spec_reconstruct((n - 1) as i32, before.1) == Ok::<Seq<u8>, MdaError>(payloads[n - 1]));
    assert(spec_payload(before.1, n - 1) == payloads.last());
    lemma_add_latest_again(block_size, before.1, before.0);
    let log = spec_add(payloads.last(), block_size, before.1, before.0).unwrap();
    assert(log.1[n].id == n);
}

} // verus!
