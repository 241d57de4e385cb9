//! Content identifiers: SHA-1 over two ordered parent ids and a payload.

use sha1::{Digest, Sha1};
use vstd::prelude::*;

verus! {

/// The id that stands for an absent parent: twenty zero bytes.
pub const NULLID: [u8; 20] = [0, 0, 0, 0, 0, 0, 0, 0, 0, 0, 0, 0, 0, 0, 0, 0, 0, 0, 0, 0];

/// The SHA-1 digest of a byte string, as computed by the `sha1` crate.
pub uninterp spec fn sha1_digest(data: Seq<u8>) -> Seq<u8>;

/// Calls `sha1::Sha1::digest` (the one-shot form of `Digest`) on `data`.
/// The contract names the digest and claims nothing else about it; its
/// length is fixed by the result type.
#[verifier::external_body]
fn sha1_of(data: &[u8]) -> (out: [u8; 20])
    ensures
        out@ == sha1_digest(data@),
{
    Sha1::digest(data).into()
}

/// Lexicographic `a <= b` on the bytes from position `i` on.
pub open spec fn lex_le_from(a: Seq<u8>, b: Seq<u8>, i: int) -> bool
    decreases a.len() - i,
{
    if i < 0 || i >= a.len() || i >= b.len() {
        a.len() <= b.len()
    } else if a[i] != b[i] {
        a[i] < b[i]
    } else {
        lex_le_from(a, b, i + 1)
    }
}

/// Lexicographic `a <= b`.
pub open spec fn lex_le(a: Seq<u8>, b: Seq<u8>) -> bool {
    lex_le_from(a, b, 0)
}

/// The smaller of two ids in lexicographic order.
pub open spec fn lex_min(a: Seq<u8>, b: Seq<u8>) -> Seq<u8> {
    if lex_le(a, b) {
        a
    } else {
        b
    }
}

/// The larger of two ids in lexicographic order.
pub open spec fn lex_max(a: Seq<u8>, b: Seq<u8>) -> Seq<u8> {
    if lex_le(a, b) {
        b
    } else {
        a
    }
}

/// The node id of a revision: the digest of the smaller parent, the larger
/// parent and the payload, in that order.
pub open spec fn spec_nodeid(parent1: Seq<u8>, parent2: Seq<u8>, payload: Seq<u8>) -> Seq<u8> {
    sha1_digest(lex_min(parent1, parent2) + lex_max(parent1, parent2) + payload)
}

proof fn lemma_lex_total(a: Seq<u8>, b: Seq<u8>, i: int)
    requires
        a.len() == b.len(),
        0 <= i <= a.len(),
    ensures
        lex_le_from(a, b, i) || lex_le_from(b, a, i),
        lex_le_from(a, b, i) && lex_le_from(b, a, i) ==> a.skip(i) == b.skip(i),
    decreases a.len() - i,
{
    if i < a.len() {
        lemma_lex_total(a, b, i + 1);
        if a[i] == b[i] && lex_le_from(a, b, i) && lex_le_from(b, a, i) {
            assert(a.skip(i + 1) == b.skip(i + 1));
            assert forall|j: int| 0 <= j < a.skip(i).len() implies a.skip(i)[j] == b.skip(i)[j] by {
                if j > 0 {
                    assert(a.skip(i)[j] == a.skip(i + 1)[j - 1]);
                    assert(b.skip(i)[j] == b.skip(i + 1)[j - 1]);
                }
            }
            assert(a.skip(i) =~= b.skip(i));
        }
    } else {
        assert(a.skip(i) =~= b.skip(i));
    }
}

/// The node id does not depend on the order in which the two parents are
/// given.
pub proof fn lemma_nodeid_symmetric(parent1: Seq<u8>, parent2: Seq<u8>, payload: Seq<u8>)
    requires
        parent1.len() == parent2.len(),
    ensures
        spec_nodeid(parent1, parent2, payload) == spec_nodeid(parent2, parent1, payload),
{
    lemma_lex_total(parent1, parent2, 0);
    if lex_le(parent1, parent2) && lex_le(parent2, parent1) {
        assert(parent1.skip(0) =~= parent1);
        assert(parent2.skip(0) =~= parent2);
    }
}

/// Decides `a <= b` in lexicographic byte order.
pub fn lex_le_ids(a: &[u8; 20], b: &[u8; 20]) -> (res: bool)
    ensures
        res == lex_le(a@, b@),
{
    let mut i: usize = 0;
    while i < 20
        invariant
            0 <= i <= 20,
            a@.len() == 20,
            b@.len() == 20,
            lex_le(a@, b@) == lex_le_from(a@, b@, i as int),
        decreases 20 - i,
    {
        if a[i] != b[i] {
            return a[i] < b[i];
        }
        i = i + 1;
    }
    true
}

/// Computes the node id of `contents` under the parents `parent1` and
/// `parent2`.
pub fn compute_nodeid(parent1: &[u8; 20], parent2: &[u8; 20], contents: &[u8]) -> (res: [u8; 20])
    ensures
        res@ == spec_nodeid(parent1@, parent2@, contents@),
{
    let first_is_min = lex_le_ids(parent1, parent2);
    let mut buffer: Vec<u8> = Vec::new();
    if first_is_min {
        buffer.extend_from_slice(parent1.as_slice());
        buffer.extend_from_slice(parent2.as_slice());
    } else {
        buffer.extend_from_slice(parent2.as_slice());
        buffer.extend_from_slice(parent1.as_slice());
    }
    buffer.extend_from_slice(contents);
    assert(buffer@ =~= lex_min(parent1@, parent2@) + lex_max(parent1@, parent2@) + contents@);
    sha1_of(buffer.as_slice())
}

} // verus!
