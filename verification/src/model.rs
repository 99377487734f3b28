//! The mathematical model of chunking: where a boundary falls in a window of
//! bytes, and the sequence of chunks that a source is cut into.

use vstd::prelude::*;
use crate::gear::{gear_hash, masked_out};
use crate::sizing::center_size_spec;

verus! {

/// The sizes and masks that decide where boundaries fall.
pub struct Config {
    pub min_size: nat,
    pub avg_size: nat,
    pub max_size: nat,
    pub mask_first: u64,
    pub mask_second: u64,
}

/// A run of bytes of the source: where it starts and how long it is.
pub struct Span {
    pub offset: nat,
    pub length: nat,
}

impl Span {
    /// The position just past the last byte of the run.
    pub open spec fn end(self) -> nat {
        self.offset + self.length
    }
}

impl Config {
    /// A configuration as callers are meant to give it: positive sizes in
    /// order, and masks that test at least one bit.
    pub open spec fn valid(self) -> bool {
        &&& 0 < self.min_size <= self.avg_size <= self.max_size
        &&& self.mask_first != 0
        &&& self.mask_second != 0
    }

    /// The bytes considered in one search: what remains, capped at the
    /// maximum chunk size.
    pub open spec fn window(self, remaining: int) -> int {
        if remaining > self.max_size { self.max_size as int } else { remaining }
    }

    /// The hash on which a cut after `k` bytes is decided. The first
    /// `min_size` bytes of the window are skipped, the hash runs over the
    /// bytes after them.
    pub open spec fn hash_at(self, src: Seq<u8>, start: int, k: int) -> u64 {
        gear_hash(src.subrange(start + self.min_size, start + k))
    }

    /// Whether the hash allows a cut after `k` bytes of a window of `window`
    /// bytes that starts at `start`. Up to the normal size the strict mask
    /// decides, past it the loose one.
    pub open spec fn cut_at(self, src: Seq<u8>, start: int, window: int, k: int) -> bool {
        let normal = center_size_spec(self.avg_size as int, self.min_size as int, window);
        if k <= normal {
            masked_out(self.hash_at(src, start, k), self.mask_first)
        } else {
            masked_out(self.hash_at(src, start, k), self.mask_second)
        }
    }

    /// Whether `k` is the first place in the window where the hash allows a
    /// cut.
    pub open spec fn is_first_cut(self, src: Seq<u8>, start: int, window: int, k: int) -> bool {
        &&& self.min_size < k <= window
        &&& self.cut_at(src, start, window, k)
        &&& forall|j: int| self.min_size < j < k ==> !self.cut_at(src, start, window, j)
    }

    /// Whether the hash allows a cut anywhere in the window.
    pub open spec fn has_cut(self, src: Seq<u8>, start: int, window: int) -> bool {
        exists|k: int| self.min_size < k <= window && self.cut_at(src, start, window, k)
    }

    /// The first place in the window where the hash allows a cut.
    pub open spec fn first_cut(self, src: Seq<u8>, start: int, window: int) -> int {
        choose|k: int| self.is_first_cut(src, start, window, k)
    }

    /// The length of the chunk that starts at `start` when `remaining` bytes
    /// are at hand from there, or 0 where none can be cut yet.
    ///
    /// Fewer bytes than the minimum give no chunk. Otherwise the chunk ends
    /// at the first cut that the hash allows in the window. Where the hash
    /// allows none, a window of the full maximum size goes out whole, and a
    /// shorter one gives no chunk.
    pub open spec fn anchor(self, src: Seq<u8>, start: int, remaining: int) -> int {
        if remaining < self.min_size {
            0
        } else {
            let window = self.window(remaining);
            if self.has_cut(src, start, window) {
                self.first_cut(src, start, window)
            } else if window < self.max_size {
                0
            } else {
                window
            }
        }
    }

    /// The chunks that a chunker at position `pos` of `src` has still to
    /// give, in order. It stops at the end of the source, or before a tail
    /// in which no chunk can be cut.
    pub open spec fn chunks_from(self, src: Seq<u8>, pos: int) -> Seq<Span>
        decreases src.len() - pos,
        via Self::chunks_from_terminates
    {
        let length = self.anchor(src, pos, src.len() - pos);
        if 0 <= pos < src.len() && 0 < length {
            seq![Span { offset: pos as nat, length: length as nat }] + self.chunks_from(
                src,
                pos + length,
            )
        } else {
            Seq::empty()
        }
    }

    #[via_fn]
    proof fn chunks_from_terminates(self, src: Seq<u8>, pos: int) {
        if 0 <= pos < src.len() {
            self.lemma_anchor_range(src, pos, src.len() - pos);
        }
    }

    /// Where the hash allows a cut at `k`, there is a first place where it
    /// does, at `k` or before it.
    pub proof fn lemma_first_cut_exists(self, src: Seq<u8>, start: int, window: int, k: int)
        requires
            self.min_size < k <= window,
            self.cut_at(src, start, window, k),
        ensures
            self.has_cut(src, start, window),
            self.is_first_cut(src, start, window, self.first_cut(src, start, window)),
            self.first_cut(src, start, window) <= k,
        decreases k,
    {
        if forall|j: int| self.min_size < j < k ==> !self.cut_at(src, start, window, j) {
            assert(self.is_first_cut(src, start, window, k));
        } else {
            let j = choose|j: int| self.min_size < j < k && self.cut_at(src, start, window, j);
            self.lemma_first_cut_exists(src, start, window, j);
        }
    }

    /// Only one place in the window is the first cut: a cut with none before
    /// it is `first_cut`.
    pub proof fn lemma_first_cut_unique(self, src: Seq<u8>, start: int, window: int, k: int)
        requires
            self.is_first_cut(src, start, window, k),
        ensures
            self.has_cut(src, start, window),
            self.first_cut(src, start, window) == k,
    {
        self.lemma_first_cut_exists(src, start, window, k);
    }

    /// The range of `anchor`: no chunk, or one that fits in the window and is
    /// longer than the minimum unless it is the whole of a full window. No
    /// chunk comes only of too few bytes, of a short window without a cut, or
    /// of a maximum of zero.
    pub proof fn lemma_anchor_range(self, src: Seq<u8>, start: int, remaining: int)
        requires
            0 <= remaining,
        ensures
            0 <= self.anchor(src, start, remaining) <= self.window(remaining) <= remaining,
            self.anchor(src, start, remaining) <= self.max_size,
            self.anchor(src, start, remaining) != 0 ==> self.min_size <= remaining,
            self.anchor(src, start, remaining) != 0 ==> self.min_size < self.anchor(
                src,
                start,
                remaining,
            ) || self.anchor(src, start, remaining) == self.max_size,
            self.anchor(src, start, remaining) == 0 ==> remaining < self.min_size || self.max_size
                == 0 || (remaining < self.max_size && !self.has_cut(src, start, remaining)),
    {
        let window = self.window(remaining);
        if remaining >= self.min_size && self.has_cut(src, start, window) {
            let k = choose|k: int|
                self.min_size < k <= window && self.cut_at(src, start, window, k);
            self.lemma_first_cut_exists(src, start, window, k);
        }
    }
}

/// What a chunker is at one moment: the source it reads, its configuration,
/// and how far it has come.
pub struct ChunkerState {
    pub source: Seq<u8>,
    pub config: Config,
    pub processed: nat,
    pub remaining: nat,
}

impl ChunkerState {
    /// The bytes given out and the bytes still to do make up the source.
    pub open spec fn wf(self) -> bool {
        self.processed + self.remaining == self.source.len()
    }

    /// The length of the next chunk, or 0 where there is none.
    pub open spec fn next_length(self) -> int {
        self.config.anchor(self.source, self.processed as int, self.remaining as int)
    }

    /// The state after a chunk of `length` bytes has been given out.
    pub open spec fn advance(self, length: nat) -> ChunkerState {
        ChunkerState {
            source: self.source,
            config: self.config,
            processed: self.processed + length,
            remaining: (self.remaining - length) as nat,
        }
    }

    /// The chunks still to come, in order.
    pub open spec fn chunks(self) -> Seq<Span> {
        self.config.chunks_from(self.source, self.processed as int)
    }
}

/// The sum of the lengths of `chunks`.
pub open spec fn total_length(chunks: Seq<Span>) -> nat
    decreases chunks.len(),
{
    if chunks.len() == 0 {
        0
    } else {
        chunks.first().length + total_length(chunks.drop_first())
    }
}

} // verus!
