//! Deciding whether a revision log satisfies its invariant.

use crate::block::{BlockSpec, DataBlock};
use crate::error::MdaError;
use crate::hash::{compute_nodeid, spec_nodeid, NULLID};
use crate::revlog::laws::{
    deduplicated, entries_wf, headers_wf, indexes_resolve, lemma_block_in_flat,
    lemma_entry_position, log_wf, spec_payload,
};
use crate::revlog::lemmas::{ids_sequential, lemma_flat_holds_blocks, numbers_ascending, spec_flat};
use crate::revlog::model::{
    pool_has_data, spec_pool, spec_resolve, Entry, EntrySpec, RevlogHeader,
};
use crate::revlog::ops::get_full_data;
use crate::revlog::pool::{pool_contains_data, same_bytes};
use vstd::prelude::*;

verus! {

/// Every block of the whole pool is a block of some entry.
pub proof fn lemma_flat_member(entries: Seq<EntrySpec>, k: int)
    requires
        0 <= k < spec_flat(entries).len(),
    ensures
        exists|i: int, a: int|
            0 <= i < entries.len() && 0 <= a < entries[i].blocks.len() && spec_flat(entries)[k]
                == #[trigger] entries[i].blocks[a],
    decreases entries.len(),
{
    if entries.len() > 0 {
        let shorter = entries.drop_last();
        let n = entries.len() as int;
        if k < spec_flat(shorter).len() {
            lemma_flat_member(shorter, k);
            let (i, a) = choose|i: int, a: int|
                0 <= i < shorter.len() && 0 <= a < shorter[i].blocks.len() && spec_flat(shorter)[k]
                    == #[trigger] shorter[i].blocks[a];
            assert(shorter[i] == entries[i]);
            assert(spec_flat(entries)[k] == entries[i].blocks[a]);
        } else {
            let a = k - spec_flat(shorter).len();
            assert(spec_flat(entries)[k] == entries[n - 1].blocks[a]);
        }
    }
}

/// Numbers that grow from each block to the next grow along the whole
/// sequence.
pub proof fn lemma_ascending_by_steps(pool: Seq<BlockSpec>, a: int, b: int)
    requires
        forall|k: int|
            0 <= k < pool.len() - 1 ==> (#[trigger] pool[k]).block_number < pool[k
                + 1].block_number,
        0 <= a < b < pool.len(),
    ensures
        pool[a].block_number < pool[b].block_number,
    decreases b - a,
{
    if a + 1 < b {
        lemma_ascending_by_steps(pool, a, b - 1);
    }
    assert(pool[b - 1].block_number < pool[b - 1 + 1].block_number);
}

/// Decides whether block numbers grow strictly along `pool`.
pub fn numbers_ascend(pool: &Vec<DataBlock>) -> (res: bool)
    ensures
        res == numbers_ascending(pool.deep_view()),
{
    if pool.len() < 2 {
        return true;
    }
    let mut k: usize = 0;
    while k < pool.len() - 1
        invariant
            pool.len() >= 2,
            0 <= k <= pool.len() - 1,
            forall|j: int|
                0 <= j < k ==> (#[trigger] pool.deep_view()[j]).block_number < pool.deep_view()[j
                    + 1].block_number,
        decreases pool.len() - k,
    {
        if pool[k].block_number >= pool[k + 1].block_number {
            assert(pool.deep_view()[k as int].block_number >= pool.deep_view()[k
                + 1].block_number);
            return false;
        }
        k = k + 1;
    }
    proof {
        let view = pool.deep_view();
        assert forall|a: int, b: int| 0 <= a < b < view.len() implies (
        #[trigger] view[a]).block_number < (#[trigger] view[b]).block_number by {
            lemma_ascending_by_steps(view, a, b);
        }
    }
    true
}

/// Decides whether the entries satisfy their invariant: at least one
/// revision, ids equal to positions, block numbers that ascend through the
/// pool, indexes that name only blocks of their own or earlier revisions,
/// and no block that repeats the content of a block of an earlier revision.
pub fn entries_well_formed(entries: &Vec<Entry>) -> (res: bool)
    ensures
        res == entries_wf(entries.deep_view()),
{
    let ghost view = entries.deep_view();
    if entries.len() == 0 {
        return false;
    }
    let mut i: usize = 0;
    while i < entries.len()
        invariant
            0 <= i <= entries.len(),
            forall|k: int| 0 <= k < i ==> (#[trigger] entries.deep_view()[k]).id == k,
        decreases entries.len() - i,
    {
        if entries[i].id as usize != i {
            assert(entries.deep_view()[i as int].id != i);
            return false;
        }
        i = i + 1;
    }
    assert(ids_sequential(view));
    let mut pool: Vec<DataBlock> = Vec::new();
    let mut j: usize = 0;
    proof {
        assert(view.take(0) =~= Seq::<EntrySpec>::empty());
        assert(pool.deep_view() =~= spec_flat(view.take(0)));
    }
    while j < entries.len()
        invariant
            0 <= j <= entries.len(),
            view == entries.deep_view(),
            pool.deep_view() == spec_flat(view.take(j as int)),
            forall|i: int, jj: int, a: int, b: int|
                0 <= i < jj < j && 0 <= a < view[i].blocks.len() && 0 <= b < view[jj].blocks.len()
                    ==> (#[trigger] view[i].blocks[a]).data != (#[trigger] view[jj].blocks[b]).data,
        decreases entries.len() - j,
    {
        let entry = &entries[j];
        let ghost earlier = pool.deep_view();
        let mut b: usize = 0;
        while b < entry.blocks.len()
            invariant
                0 <= b <= entry.blocks.len(),
                0 <= j < entries.len(),
                view == entries.deep_view(),
                entry == &entries[j as int],
                pool.deep_view() == earlier,
                earlier == spec_flat(view.take(j as int)),
                forall|t: int|
                    0 <= t < b ==> !pool_has_data(earlier, (#[trigger] view[j as int].blocks[t]).data),
            decreases entry.blocks.len() - b,
        {
            if pool_contains_data(&pool, entry.blocks[b].data.as_slice()) {
                proof {
                    let data = view[j as int].blocks[b as int].data;
                    let k = choose|k: int| 0 <= k < earlier.len() && #[trigger] earlier[k].data == data;
                    lemma_flat_member(view.take(j as int), k);
                    let (i, a) = choose|i: int, a: int|
                        0 <= i < view.take(j as int).len() && 0 <= a < view.take(
                            j as int,
                        )[i].blocks.len() && earlier[k] == #[trigger] view.take(
                            j as int,
                        )[i].blocks[a];
                    assert(view.take(j as int)[i] == view[i]);
                    assert(view[i].blocks[a].data == view[j as int].blocks[b as int].data);
                    assert(!deduplicated(view));
                }
                return false;
            }
            b = b + 1;
        }
        proof {
            assert forall|i: int, jj: int, a: int, b: int|
                0 <= i < jj < j + 1 && 0 <= a < view[i].blocks.len() && 0 <= b
                    < view[jj].blocks.len() implies (#[trigger] view[i].blocks[a]).data != (
            #[trigger] view[jj].blocks[b]).data by {
                if jj == j {
                    assert(view.take(j as int)[i] == view[i]);
                    lemma_block_in_flat(view.take(j as int), i, a);
                    let k = choose|k: int|
                        0 <= k < earlier.len() && #[trigger] earlier[k] == view.take(
                            j as int,
                        )[i].blocks[a];
                    assert(earlier[k].data == view[i].blocks[a].data);
                    assert(!pool_has_data(earlier, view[j as int].blocks[b].data));
                }
            }
            lemma_flat_holds_blocks(view, j as int);
        }
        let mut c: usize = 0;
        while c < entry.blocks.len()
            invariant
                0 <= c <= entry.blocks.len(),
                entry == &entries[j as int],
                0 <= j < entries.len(),
                view == entries.deep_view(),
                pool.deep_view() == earlier + view[j as int].blocks.take(c as int),
            decreases entry.blocks.len() - c,
        {
            let ghost before = pool.deep_view();
            pool.push(entry.blocks[c].clone());
            assert(pool.deep_view() =~= before.push(view[j as int].blocks[c as int]));
            assert(pool.deep_view() =~= earlier + view[j as int].blocks.take(c as int + 1));
            c = c + 1;
        }
        assert(view[j as int].blocks.take(c as int) =~= view[j as int].blocks);
        j = j + 1;
    }
    assert(view.take(j as int) =~= view);
    assert(deduplicated(view));
    if !numbers_ascend(&pool) {
        return false;
    }
    let mut r: usize = 0;
    while r < entries.len()
        invariant
            0 <= r <= entries.len(),
            view == entries.deep_view(),
            ids_sequential(view),
            forall|k: int|
                0 <= k < r ==> spec_resolve(
                    (#[trigger] view[k]).index,
                    spec_pool(view, k as u8),
                ).is_some(),
        decreases entries.len() - r,
    {
        proof {
            lemma_entry_position(view, r as int);
        }
        match get_full_data(r as u8, entries) {
            Ok(_) => {},
            Err(_) => {
                assert(!indexes_resolve(view)) by {
                    assert(spec_resolve(
                        view[r as int].index,
                        spec_pool(view, r as u8),
                    ).is_none());
                }
                return false;
            },
        }
        r = r + 1;
    }
    true
}

/// Decides whether the headers are tied to the entries as the invariant
/// asks: one header for each entry, revision numbers equal to positions,
/// each node id the digest of its revision's payload under null parents,
/// null second parents, the first parent null for revision zero and the
/// node id of revision zero for every other, and link revisions that name
/// the revision before.
pub fn headers_well_formed(headers: &Vec<RevlogHeader>, entries: &Vec<Entry>) -> (res: bool)
    requires
        entries_wf(entries.deep_view()),
    ensures
        res == headers_wf(headers.deep_view(), entries.deep_view()),
{
    let ghost hs = headers.deep_view();
    let ghost es = entries.deep_view();
    if headers.len() != entries.len() {
        return false;
    }
    let mut i: usize = 0;
    while i < headers.len()
        invariant
            0 <= i <= headers.len(),
            headers.len() == entries.len(),
            hs == headers.deep_view(),
            es == entries.deep_view(),
            entries_wf(es),
            forall|k: int| 0 <= k < i ==> (#[trigger] hs[k]).rev == k,
            forall|k: int|
                0 <= k < i ==> (#[trigger] hs[k]).nodeid == spec_nodeid(
                    NULLID@,
                    NULLID@,
                    spec_payload(es, k),
                ),
            forall|k: int| 0 <= k < i ==> (#[trigger] hs[k]).p2rev == NULLID@,
            forall|k: int|
                0 <= k < i ==> (#[trigger] hs[k]).p1rev == if k == 0 {
                    NULLID@
                } else {
                    hs[0].nodeid
                },
            forall|k: int|
                0 <= k < i ==> (#[trigger] hs[k]).linkrev == if k == 0 {
                    0
                } else {
                    k - 1
                },
        decreases headers.len() - i,
    {
        let header = &headers[i];
        assert(hs[i as int] == header@);
        assert(es[i as int].id == i);
        proof {
            lemma_entry_position(es, i as int);
        }
        let payload = match get_full_data(i as u8, entries) {
            Ok(payload) => payload,
            Err(_) => {
                return false;
            },
        };
        assert(spec_payload(es, i as int) == payload@);
        let nodeid = compute_nodeid(&NULLID, &NULLID, payload.as_slice());
        let expected_p1: [u8; 20] = if i == 0 {
            NULLID
        } else {
            headers[0].nodeid
        };
        let expected_link: i32 = if i == 0 {
            0
        } else {
            (i - 1) as i32
        };
        if header.rev as usize != i || !same_bytes(header.nodeid.as_slice(), nodeid.as_slice())
            || !same_bytes(header.p2rev.as_slice(), NULLID.as_slice()) || !same_bytes(
            header.p1rev.as_slice(),
            expected_p1.as_slice(),
        ) || header.linkrev != expected_link {
            return false;
        }
        i = i + 1;
    }
    true
}

/// Checks the invariant of a revision log; a log that breaks it is
/// reported as an invariant violation.
pub fn validate_log(headers: &Vec<RevlogHeader>, entries: &Vec<Entry>) -> (res: Result<(), MdaError>)
    ensures
        log_wf(headers.deep_view(), entries.deep_view()) ==> res.is_ok(),
        !log_wf(headers.deep_view(), entries.deep_view()) ==> res == Err::<(), MdaError>(
            MdaError::InvariantViolated,
        ),
{
    if entries_well_formed(entries) && headers_well_formed(headers, entries) {
        Ok(())
    } else {
        Err(MdaError::InvariantViolated)
    }
}

} // verus!
