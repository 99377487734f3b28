//! The gear hash: a rolling hash that takes one byte per step and forgets old
//! bytes as their bits are shifted out of the 64-bit word.

use vstd::prelude::*;

verus! {

/// One step of the hash: shift left by one bit, dropping the top bit, and mix
/// the byte in with exclusive or.
pub open spec fn gear_step(hash: u64, byte: u8) -> u64 {
    (hash << 1u64) ^ (byte as u64)
}

/// The hash of a run of bytes, taken from zero, one step per byte.
pub open spec fn gear_hash(bytes: Seq<u8>) -> u64
    decreases bytes.len(),
{
    if bytes.len() == 0 {
        0
    } else {
        gear_step(gear_hash(bytes.drop_last()), bytes.last())
    }
}

/// Hashing one more byte is one more step.
pub proof fn lemma_gear_hash_push(bytes: Seq<u8>, byte: u8)
    ensures
        gear_hash(bytes.push(byte)) == gear_step(gear_hash(bytes), byte),
{
    assert(bytes.push(byte).drop_last() =~= bytes);
}

/// Whether `hash` has no bit of `mask` set: the test for a boundary.
pub open spec fn masked_out(hash: u64, mask: u64) -> bool {
    hash & mask == 0
}

/// Roll the hash forward over one byte.
pub fn roll(hash: u64, byte: u8) -> (next: u64)
    ensures
        next == gear_step(hash, byte),
{
    (hash << 1) ^ (byte as u64)
}

} // verus!
