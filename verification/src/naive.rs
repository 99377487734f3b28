//! A plain scan for anchors, without size limits: every position at which
//! the hash of all bytes before it passes the strict mask. It is the
//! baseline that the chunker is measured against.

use vstd::prelude::*;
use crate::chunker::MASK_15;
use crate::gear::{gear_hash, lemma_gear_hash_push, masked_out, roll};

verus! {

/// The bytes that are hashed before the first position is tested.
pub const WINDOW_BYTES_LEN: usize = 48;

/// Whether position `i` of `buffer` is an anchor of the plain scan: it lies
/// past the first `WINDOW_BYTES_LEN` bytes, and the hash of the bytes before
/// it has no bit of the strict mask set.
pub open spec fn is_naive_anchor(buffer: Seq<u8>, i: int) -> bool {
    &&& WINDOW_BYTES_LEN <= i < buffer.len()
    &&& masked_out(gear_hash(buffer.take(i)), MASK_15)
}

/// Appends to `anchors_offsets` every anchor of the plain scan over
/// `buffer`, in rising order. What the vector held before stays in front.
pub fn pack_count_anchors(buffer: &[u8], anchors_offsets: &mut Vec<usize>)
    requires
        buffer@.len() >= WINDOW_BYTES_LEN,
    ensures
        ({
            let before = old(anchors_offsets)@;
            let after = final(anchors_offsets)@;
            &&& before.len() <= after.len()
            &&& after.subrange(0, before.len() as int) == before
            &&& forall|n: int|
                before.len() <= n < after.len() ==> is_naive_anchor(
                    buffer@,
                    #[trigger] after[n] as int,
                )
            &&& forall|m: int, n: int|
                before.len() <= m < n < after.len() ==> after[m] < after[n]
            &&& forall|i: int|
                is_naive_anchor(buffer@, i) ==> exists|n: int|
                    before.len() <= n < after.len() && #[trigger] after[n] == i
        }),
{
    let buffer_len: usize = buffer.len();
    let ghost before = anchors_offsets@;
    let mut hash: u64 = 0;
    let mut pos: usize = 0;
    assert(buffer@.take(0) =~= Seq::<u8>::empty());
    while pos < WINDOW_BYTES_LEN
        invariant
            pos <= WINDOW_BYTES_LEN <= buffer_len == buffer@.len(),
            hash == gear_hash(buffer@.take(pos as int)),
        decreases WINDOW_BYTES_LEN - pos,
    {
        let item: u8 = buffer[pos];
        proof {
            lemma_gear_hash_push(buffer@.take(pos as int), item);
            assert(buffer@.take(pos + 1) =~= buffer@.take(pos as int).push(item));
        }
        hash = roll(hash, item);
        pos += 1;
    }
    assert(anchors_offsets@.subrange(0, before.len() as int) =~= before);
    while pos < buffer_len
        invariant
            WINDOW_BYTES_LEN <= pos <= buffer_len == buffer@.len(),
            hash == gear_hash(buffer@.take(pos as int)),
            before.len() <= anchors_offsets@.len(),
            anchors_offsets@.subrange(0, before.len() as int) == before,
            forall|n: int|
                before.len() <= n < anchors_offsets@.len() ==> is_naive_anchor(
                    buffer@,
                    #[trigger] anchors_offsets@[n] as int,
                ) && anchors_offsets@[n] < pos,
            forall|m: int, n: int|
                before.len() <= m < n < anchors_offsets@.len() ==> anchors_offsets@[m]
                    < anchors_offsets@[n],
            forall|i: int|
                is_naive_anchor(buffer@, i) && i < pos ==> exists|n: int|
                    before.len() <= n < anchors_offsets@.len() && #[trigger] anchors_offsets@[n]
                        == i,
        decreases buffer_len - pos,
    {
        let ghost found = anchors_offsets@;
        if (hash & MASK_15) == 0 {
            anchors_offsets.push(pos);
            proof {
                assert(anchors_offsets@.subrange(0, before.len() as int) =~= found.subrange(
                    0,
                    before.len() as int,
                ));
                assert(anchors_offsets@[found.len() as int] == pos);
            }
        }
        proof {
            assert forall|i: int| is_naive_anchor(buffer@, i) && i < pos + 1 implies exists|
                n: int,
            |
                before.len() <= n < anchors_offsets@.len() && #[trigger] anchors_offsets@[n]
                    == i by {
                if i < pos {
                    let n = choose|n: int|
                        before.len() <= n < found.len() && #[trigger] found[n] == i;
                    assert(anchors_offsets@[n] == i);
                } else {
                    assert(anchors_offsets@[found.len() as int] == i);
                }
            }
        }
        let item: u8 = buffer[pos];
        proof {
            lemma_gear_hash_push(buffer@.take(pos as int), item);
            assert(buffer@.take(pos + 1) =~= buffer@.take(pos as int).push(item));
        }
        hash = roll(hash, item);
        pos += 1;
    }
}

} // verus!
