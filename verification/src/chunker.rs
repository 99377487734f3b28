//! The chunker: a cursor over a byte slice that gives out one chunk at a time.

use vstd::prelude::*;
use crate::gear::{lemma_gear_hash_push, roll};
use crate::model::{ChunkerState, Config, Span};
use crate::sizing::{center_size, center_size_spec, lemma_center_size_range};

verus! {

/// Minimum chunk size of the default configuration.
pub const DEFAULT_MIN_SIZE: usize = 8 * 1024;

/// Target chunk size of the default configuration.
pub const DEFAULT_AVG_SIZE: usize = 32 * 1024;

/// Maximum chunk size of the default configuration.
pub const DEFAULT_MAX_SIZE: usize = 64 * 1024;

/// The strict mask of the default configuration: 15 bits, none among the
/// lowest seven.
pub const MASK_15: u64 = 0x0000_8A31_1458_3280u64;

/// The loose mask of the default configuration: `MASK_15` less one bit.
pub const MASK_14: u64 = 0x0000_8A31_1058_3280u64;

/// The default configuration, as a model value.
pub open spec fn default_config() -> Config {
    Config {
        min_size: 8192,
        avg_size: 32768,
        max_size: 65536,
        mask_first: MASK_15,
        mask_second: MASK_14,
    }
}

/// Represents a chunk: a run of bytes of the source.
#[derive(Debug, Clone, Copy, PartialEq, Eq, Hash, Structural)]
pub struct Chunk {
    /// Starting byte position within the source
    pub offset: usize,
    /// Length of the chunk in bytes
    pub length: usize,
}

impl View for Chunk {
    type V = Span;

    open spec fn view(&self) -> Span {
        Span { offset: self.offset as nat, length: self.length as nat }
    }
}

/// The model values of a run of chunks.
pub open spec fn spans(chunks: Seq<Chunk>) -> Seq<Span> {
    chunks.map_values(|c: Chunk| c@)
}

/// The chunker. Use `new` to make one for a buffer, and `next` to take the
/// chunks from it one by one.
#[derive(Debug, PartialEq, Eq)]
pub struct PackCDC<'a> {
    source: &'a [u8],
    bytes_processed: usize,
    bytes_remaining: usize,
    min_size: usize,
    avg_size: usize,
    max_size: usize,
    mask_first: u64,
    mask_second: u64,
}

impl<'a> View for PackCDC<'a> {
    type V = ChunkerState;

    closed spec fn view(&self) -> ChunkerState {
        ChunkerState {
            source: self.source@,
            config: Config {
                min_size: self.min_size as nat,
                avg_size: self.avg_size as nat,
                max_size: self.max_size as nat,
                mask_first: self.mask_first,
                mask_second: self.mask_second,
            },
            processed: self.bytes_processed as nat,
            remaining: self.bytes_remaining as nat,
        }
    }
}

impl<'a> Clone for PackCDC<'a> {
    /// A second chunker over the same source, at the same place.
    fn clone(&self) -> (copy: Self)
        ensures
            copy == *self,
    {
        proof {
            use_type_invariant(self);
        }
        Self {
            source: self.source,
            bytes_processed: self.bytes_processed,
            bytes_remaining: self.bytes_remaining,
            min_size: self.min_size,
            avg_size: self.avg_size,
            max_size: self.max_size,
            mask_first: self.mask_first,
            mask_second: self.mask_second,
        }
    }
}

impl<'a> PackCDC<'a> {
    #[verifier::type_invariant]
    spec fn cursor_in_source(&self) -> bool {
        self.bytes_processed + self.bytes_remaining == self.source@.len()
    }

    /// A chunker over `source` with the default sizes and masks.
    pub fn new(source: &'a [u8]) -> (chunker: Self)
        ensures
            chunker@ == (ChunkerState {
                source: source@,
                config: default_config(),
                processed: 0,
                remaining: source@.len(),
            }),
            chunker@.config.valid(),
            chunker@.wf(),
    {
        PackCDC::new_configurable(
            source,
            DEFAULT_MIN_SIZE,
            DEFAULT_AVG_SIZE,
            DEFAULT_MAX_SIZE,
            MASK_15,
            MASK_14,
        )
    }

    /// A chunker over `source` with the given sizes and masks. They are taken
    /// as they are: see `Config::valid` for what they are meant to be.
    pub fn new_configurable(
        source: &'a [u8],
        min_size: usize,
        avg_size: usize,
        max_size: usize,
        mask_first: u64,
        mask_second: u64,
    ) -> (chunker: Self)
        ensures
            chunker@ == (ChunkerState {
                source: source@,
                config: Config {
                    min_size: min_size as nat,
                    avg_size: avg_size as nat,
                    max_size: max_size as nat,
                    mask_first,
                    mask_second,
                },
                processed: 0,
                remaining: source@.len(),
            }),
            chunker@.wf(),
    {
        Self {
            source,
            bytes_processed: 0,
            bytes_remaining: source.len(),
            min_size,
            avg_size,
            max_size,
            mask_first,
            mask_second,
        }
    }

    /// Searches the window of `source_size` bytes at `source_offset` for the
    /// end of the chunk that starts there, and returns the chunk's length.
    /// It returns 0 where no chunk can be cut yet: with fewer bytes than the
    /// minimum, or with no cut found in a window short of the maximum.
    pub fn find_anchor(&mut self, source_offset: usize, source_size: usize) -> (length: usize)
        requires
            source_offset + source_size <= old(self)@.source.len(),
        ensures
            *final(self) == *old(self),
            length == old(self)@.config.anchor(
                old(self)@.source,
                source_offset as int,
                source_size as int,
            ),
            length <= source_size,
            length <= old(self)@.config.max_size,
            source_size < old(self)@.config.min_size ==> length == 0,
            length == 0 ==> ({
                ||| source_size < old(self)@.config.min_size
                ||| source_size < old(self)@.config.max_size
                ||| old(self)@.config.max_size == 0
            }),
            length != 0 ==> ({
                ||| old(self)@.config.min_size < length
                ||| length == old(self)@.config.max_size
            }),
    {
        proof {
            self@.config.lemma_anchor_range(
                self@.source,
                source_offset as int,
                source_size as int,
            );
        }
        // Not enough bytes for a legal chunk: the caller may wait for more.
        if source_size < self.min_size {
            return 0;
        }
        let window: usize = if source_size > self.max_size {
            self.max_size
        } else {
            source_size
        };
        proof {
            use_type_invariant(&*self);
            assert(self.source.len() == self.source@.len());
            lemma_center_size_range(self.avg_size as int, self.min_size as int, window as int);
        }
        let source_start: usize = source_offset;
        let source_len1: usize = source_offset + center_size(
            self.avg_size,
            self.min_size,
            window,
        );
        let source_len2: usize = source_offset + window;
        let ghost config = self@.config;
        let ghost src = self@.source;
        let ghost start = source_start as int;
        let mut hash: u64 = 0;
        let mut pos: usize = source_offset + self.min_size;
        assert(src.subrange(start + config.min_size, pos as int) =~= Seq::<u8>::empty());
        // The strict mask first, for chunks that run smaller than the normal
        // size.
        while pos < source_len1
            invariant
                *self == *old(self),
                config == self@.config,
                src == self@.source,
                src == self.source@,
                config.min_size == self.min_size,
                config.mask_first == self.mask_first,
                start == source_start == source_offset,
                config.min_size <= source_size,
                window == config.window(source_size as int),
                source_len1 == start + center_size_spec(
                    config.avg_size as int,
                    config.min_size as int,
                    window as int,
                ),
                source_len1 <= source_len2 == start + window <= src.len(),
                start + config.min_size <= pos,
                pos <= source_len1 || pos == start + config.min_size,
                hash == config.hash_at(src, start, pos - start),
                forall|j: int|
                    config.min_size < j <= pos - start ==> !config.cut_at(
                        src,
                        start,
                        window as int,
                        j,
                    ),
            decreases source_len1 - pos,
        {
            let byte: u8 = self.source[pos];
            proof {
                lemma_gear_hash_push(src.subrange(start + config.min_size, pos as int), byte);
                assert(src.subrange(start + config.min_size, pos + 1) =~= src.subrange(
                    start + config.min_size,
                    pos as int,
                ).push(byte));
            }
            pos += 1;
            hash = roll(hash, byte);
            if (hash & self.mask_first) == 0 {
                proof {
                    config.lemma_first_cut_unique(src, start, window as int, pos - start);
                }
                return pos - source_start;
            }
        }
        // Then the loose mask, for chunks that run larger than the normal
        // size.
        while pos < source_len2
            invariant
                *self == *old(self),
                config == self@.config,
                src == self@.source,
                src == self.source@,
                config.min_size == self.min_size,
                config.mask_second == self.mask_second,
                start == source_start == source_offset,
                config.min_size <= source_size,
                window == config.window(source_size as int),
                source_len1 == start + center_size_spec(
                    config.avg_size as int,
                    config.min_size as int,
                    window as int,
                ),
                source_len2 == start + window <= src.len(),
                start + config.min_size <= pos,
                source_len1 <= pos,
                pos <= source_len2 || pos == start + config.min_size,
                hash == config.hash_at(src, start, pos - start),
                forall|j: int|
                    config.min_size < j <= pos - start ==> !config.cut_at(
                        src,
                        start,
                        window as int,
                        j,
                    ),
            decreases source_len2 - pos,
        {
            let byte: u8 = self.source[pos];
            proof {
                lemma_gear_hash_push(src.subrange(start + config.min_size, pos as int), byte);
                assert(src.subrange(start + config.min_size, pos + 1) =~= src.subrange(
                    start + config.min_size,
                    pos as int,
                ).push(byte));
            }
            pos += 1;
            hash = roll(hash, byte);
            if (hash & self.mask_second) == 0 {
                proof {
                    config.lemma_first_cut_unique(src, start, window as int, pos - start);
                }
                return pos - source_start;
            }
        }
        assert(!config.has_cut(src, start, window as int));
        // A window short of the maximum may yet grow and show a cut.
        if window < self.max_size {
            return 0;
        }
        // A full window without a cut goes out whole.
        window
    }

    /// Gives the next chunk and moves past it, or gives `None` where no chunk
    /// is left: at the end of the source, or before a tail in which no chunk
    /// can be cut. After `None` the chunker stays as it is.
    pub fn next(&mut self) -> (item: Option<Chunk>)
        ensures
            old(self)@.wf(),
            final(self)@.wf(),
            match item {
                Some(chunk) => {
                    &&& old(self)@.remaining > 0
                    &&& chunk@.offset == old(self)@.processed
                    &&& chunk@.length == old(self)@.next_length()
                    &&& 0 < chunk@.length <= old(self)@.remaining
                    &&& final(self)@ == old(self)@.advance(chunk@.length)
                },
                None => {
                    &&& old(self)@.remaining == 0 || old(self)@.next_length() == 0
                    &&& *final(self) == *old(self)
                },
            },
            item is Some <==> old(self)@.chunks().len() > 0,
            old(self)@.remaining < old(self)@.config.min_size ==> item is None,
            0 < old(self)@.config.max_size <= old(self)@.remaining && old(self)@.config.min_size
                <= old(self)@.config.max_size ==> item is Some,
            item matches Some(chunk) ==> chunk@ == old(self)@.chunks().first(),
            item is Some ==> final(self)@.chunks() == old(self)@.chunks().drop_first(),
    {
        proof {
            use_type_invariant(&*self);
            assert(self.source.len() == self.source@.len());
            self@.config.lemma_anchor_range(
                self@.source,
                self@.processed as int,
                self@.remaining as int,
            );
        }
        if self.bytes_remaining == 0 {
            None
        } else {
            let chunk_size: usize = self.find_anchor(self.bytes_processed, self.bytes_remaining);
            if chunk_size == 0 {
                None
            } else {
                let chunk_start: usize = self.bytes_processed;
                // Both counters move at once: together they span the source.
                *self = Self {
                    source: self.source,
                    bytes_processed: chunk_start + chunk_size,
                    bytes_remaining: self.bytes_remaining - chunk_size,
                    min_size: self.min_size,
                    avg_size: self.avg_size,
                    max_size: self.max_size,
                    mask_first: self.mask_first,
                    mask_second: self.mask_second,
                };
                proof {
                    assert(old(self)@.chunks().drop_first() =~= self@.chunks());
                }
                Some(Chunk { offset: chunk_start, length: chunk_size })
            }
        }
    }

    /// The number of chunks that are left. It uses the chunker up.
    pub fn count(self) -> (n: usize)
        ensures
            n == self@.chunks().len(),
    {
        let mut rest = self;
        let mut n: usize = 0;
        proof {
            use_type_invariant(&rest);
        }
        loop
            invariant
                rest@.wf(),
                n + rest@.chunks().len() == self@.chunks().len(),
                n <= rest@.processed <= usize::MAX,
            ensures
                n == self@.chunks().len(),
            decreases rest@.remaining,
        {
            match rest.next() {
                Some(_) => {
                    n += 1;
                },
                None => {
                    break ;
                },
            }
        }
        n
    }

    /// All chunks that are left, in order. It uses the chunker up.
    pub fn collect(self) -> (chunks: Vec<Chunk>)
        ensures
            spans(chunks@) == self@.chunks(),
    {
        let mut rest = self;
        let mut chunks: Vec<Chunk> = Vec::new();
        proof {
            use_type_invariant(&rest);
            assert(spans(chunks@) + rest@.chunks() =~= self@.chunks());
        }
        loop
            invariant
                rest@.wf(),
                spans(chunks@) + rest@.chunks() == self@.chunks(),
            ensures
                spans(chunks@) == self@.chunks(),
            decreases rest@.remaining,
        {
            let ghost before = rest@.chunks();
            let ghost done = chunks@;
            match rest.next() {
                Some(chunk) => {
                    chunks.push(chunk);
                    proof {
                        assert(spans(chunks@) =~= spans(done).push(chunk@));
                        assert(spans(done).push(chunk@) + before.drop_first() =~= spans(done)
                            + before);
                    }
                },
                None => {
                    proof {
                        assert(spans(chunks@) + before =~= spans(chunks@));
                    }
                    break ;
                },
            }
        }
        chunks
    }
}

} // verus!
