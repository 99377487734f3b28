//! What holds of every chunking: the chunks lie end to end, keep to the size
//! limits, and depend on nothing but the bytes they cover.

use vstd::prelude::*;
use crate::model::{total_length, ChunkerState, Config, Span};

verus! {

/// Chunks lie end to end from where the chunker stands: the first starts at
/// `pos`, each next one starts where the one before it ends, and none
/// reaches past the end of the source.
pub proof fn lemma_chunks_contiguous(config: Config, src: Seq<u8>, pos: int)
    requires
        0 <= pos,
    ensures
        ({
            let chunks = config.chunks_from(src, pos);
            &&& chunks.len() > 0 ==> chunks.first().offset == pos
            &&& forall|i: int|
                0 <= i < chunks.len() - 1 ==> (#[trigger] chunks[i + 1]).offset
                    == chunks[i].end()
            &&& forall|i: int|
                0 <= i < chunks.len() ==> pos <= (#[trigger] chunks[i]).offset
                    && chunks[i].end() <= src.len()
        }),
    decreases src.len() - pos,
{
    let chunks = config.chunks_from(src, pos);
    if chunks.len() > 0 {
        let length = config.anchor(src, pos, src.len() - pos);
        let rest = config.chunks_from(src, pos + length);
        config.lemma_anchor_range(src, pos, src.len() - pos);
        lemma_chunks_contiguous(config, src, pos + length);
        assert forall|i: int| 0 <= i < chunks.len() - 1 implies (#[trigger] chunks[i
            + 1]).offset == chunks[i].end() by {
            assert(chunks[i + 1] == rest[i]);
            if i > 0 {
                assert(chunks[i] == rest[i - 1]);
                assert(rest[i - 1 + 1] == rest[i]);
            }
        }
        assert forall|i: int| 0 <= i < chunks.len() implies pos <= (#[trigger] chunks[i]).offset
            && chunks[i].end() <= src.len() by {
            if i > 0 {
                assert(chunks[i] == rest[i - 1]);
            }
        }
    }
}

/// The lengths of the chunks add up to the bytes that the chunker passes
/// over: the last chunk ends that many bytes after `pos`, and never past
/// the end of the source.
pub proof fn lemma_chunks_cover_consumed(config: Config, src: Seq<u8>, pos: int)
    requires
        0 <= pos <= src.len(),
    ensures
        ({
            let chunks = config.chunks_from(src, pos);
            &&& pos + total_length(chunks) <= src.len()
            &&& chunks.len() > 0 ==> chunks.last().end() == pos + total_length(chunks)
        }),
    decreases src.len() - pos,
{
    let chunks = config.chunks_from(src, pos);
    if chunks.len() > 0 {
        let length = config.anchor(src, pos, src.len() - pos);
        let rest = config.chunks_from(src, pos + length);
        config.lemma_anchor_range(src, pos, src.len() - pos);
        lemma_chunks_cover_consumed(config, src, pos + length);
        assert(chunks.drop_first() =~= rest);
        if rest.len() > 0 {
            assert(chunks.last() == rest.last());
        }
    }
}

/// The bytes after the last chunk are a tail in which no chunk can be cut.
/// With a minimum that is not above the maximum, that tail is shorter than
/// the maximum.
pub proof fn lemma_dropped_tail(config: Config, src: Seq<u8>, pos: int)
    requires
        0 <= pos <= src.len(),
    ensures
        ({
            let end = pos + total_length(config.chunks_from(src, pos));
            &&& end <= src.len()
            &&& end == src.len() || config.anchor(src, end, src.len() - end) == 0
            &&& config.min_size <= config.max_size && 0 < config.max_size ==> src.len() - end
                < config.max_size
        }),
    decreases src.len() - pos,
{
    let chunks = config.chunks_from(src, pos);
    config.lemma_anchor_range(src, pos, src.len() - pos);
    if chunks.len() > 0 {
        let length = config.anchor(src, pos, src.len() - pos);
        lemma_dropped_tail(config, src, pos + length);
        assert(chunks.drop_first() =~= config.chunks_from(src, pos + length));
    }
}

/// Every chunk holds at least one byte and at most `max_size`. With a
/// minimum that is not above the maximum, every chunk holds at least
/// `min_size` bytes, and one of exactly `min_size` only where that is the
/// maximum too.
pub proof fn lemma_chunk_bounds(config: Config, src: Seq<u8>, pos: int)
    requires
        0 <= pos,
    ensures
        ({
            let chunks = config.chunks_from(src, pos);
            &&& forall|i: int|
                0 <= i < chunks.len() ==> 0 < (#[trigger] chunks[i]).length <= config.max_size
            &&& forall|i: int|
                0 <= i < chunks.len() && config.min_size <= config.max_size
                    ==> config.min_size <= (#[trigger] chunks[i]).length
            &&& forall|i: int|
                0 <= i < chunks.len() ==> config.min_size < (#[trigger] chunks[i]).length
                    || chunks[i].length == config.max_size
        }),
    decreases src.len() - pos,
{
    let chunks = config.chunks_from(src, pos);
    if chunks.len() > 0 {
        let length = config.anchor(src, pos, src.len() - pos);
        let rest = config.chunks_from(src, pos + length);
        config.lemma_anchor_range(src, pos, src.len() - pos);
        lemma_chunk_bounds(config, src, pos + length);
        assert forall|i: int| 0 <= i < chunks.len() implies 0 < (#[trigger] chunks[i]).length
            <= config.max_size && (config.min_size < chunks[i].length || chunks[i].length
            == config.max_size) by {
            if i > 0 {
                assert(chunks[i] == rest[i - 1]);
            }
        }
    }
}

/// Chunking is a function of the bytes, the configuration and the place:
/// two chunkers that agree on these give the same chunks.
pub proof fn lemma_chunking_deterministic(a: ChunkerState, b: ChunkerState)
    requires
        a.source == b.source,
        a.config == b.config,
        a.processed == b.processed,
    ensures
        a.chunks() == b.chunks(),
{
}

/// A source with fewer bytes left than the minimum gives no chunk.
pub proof fn lemma_short_input(config: Config, src: Seq<u8>, pos: int)
    requires
        src.len() - pos < config.min_size,
    ensures
        config.chunks_from(src, pos) == Seq::<Span>::empty(),
{
}

/// Whether a cut is allowed after `k` bytes depends only on the bytes up to
/// there: two sources that agree on the first `len` bytes from `start`, seen
/// through windows that both reach `len`, allow the same cuts up to `len`.
pub proof fn lemma_cut_is_local(
    config: Config,
    a: Seq<u8>,
    b: Seq<u8>,
    start: int,
    window_a: int,
    window_b: int,
    len: int,
    k: int,
)
    requires
        0 <= start,
        config.min_size < k <= len,
        len <= window_a,
        len <= window_b,
        start + len <= a.len(),
        start + len <= b.len(),
        a.subrange(start, start + len) == b.subrange(start, start + len),
    ensures
        config.cut_at(a, start, window_a, k) == config.cut_at(b, start, window_b, k),
{
    let from = start + config.min_size;
    let hashed_a = a.subrange(from, start + k);
    let hashed_b = b.subrange(from, start + k);
    assert(hashed_a =~= hashed_b) by {
        assert forall|i: int| 0 <= i < hashed_a.len() implies #[trigger] hashed_a[i]
            == hashed_b[i] by {
            assert(a.subrange(start, start + len)[config.min_size + i] == a[from + i]);
            assert(b.subrange(start, start + len)[config.min_size + i] == b[from + i]);
        }
    }
}

/// The chunk found at a place depends only on the bytes it covers: where one
/// source gives a chunk of `length` bytes at `start`, any source with the
/// same bytes there gives the same chunk, whatever follows them.
pub proof fn lemma_anchor_is_local(
    config: Config,
    a: Seq<u8>,
    b: Seq<u8>,
    start: int,
    remaining_a: int,
    remaining_b: int,
)
    requires
        config.min_size <= config.max_size,
        0 <= start,
        0 <= remaining_a,
        start + remaining_a <= a.len(),
        start + remaining_b <= b.len(),
        0 < config.anchor(a, start, remaining_a) <= remaining_b,
        a.subrange(start, start + config.anchor(a, start, remaining_a)) == b.subrange(
            start,
            start + config.anchor(a, start, remaining_a),
        ),
    ensures
        config.anchor(b, start, remaining_b) == config.anchor(a, start, remaining_a),
{
    let length = config.anchor(a, start, remaining_a);
    let window_a = config.window(remaining_a);
    let window_b = config.window(remaining_b);
    config.lemma_anchor_range(a, start, remaining_a);
    assert forall|k: int| config.min_size < k <= length implies config.cut_at(
        a,
        start,
        window_a,
        k,
    ) == config.cut_at(b, start, window_b, k) by {
        lemma_cut_is_local(config, a, b, start, window_a, window_b, length, k);
    }
    if config.has_cut(a, start, window_a) {
        let k = choose|k: int|
            config.min_size < k <= window_a && config.cut_at(a, start, window_a, k);
        config.lemma_first_cut_exists(a, start, window_a, k);
        assert(config.is_first_cut(b, start, window_b, length));
        config.lemma_first_cut_unique(b, start, window_b, length);
    } else {
        assert(window_b == window_a);
        assert(!config.has_cut(b, start, window_b));
    }
}

/// Chunks that lie before an edit are not changed by it: where two sources
/// agree on their first `prefix` bytes, every chunk of the one that ends
/// within those bytes is a chunk of the other too, at the same index.
pub proof fn lemma_chunks_before_edit_unchanged(
    config: Config,
    a: Seq<u8>,
    b: Seq<u8>,
    pos: int,
    prefix: int,
    i: int,
)
    requires
        config.min_size <= config.max_size,
        0 <= pos,
        prefix <= a.len(),
        prefix <= b.len(),
        a.subrange(0, prefix) == b.subrange(0, prefix),
        0 <= i < config.chunks_from(a, pos).len(),
        config.chunks_from(a, pos)[i].end() <= prefix,
    ensures
        i < config.chunks_from(b, pos).len(),
        config.chunks_from(b, pos)[i] == config.chunks_from(a, pos)[i],
    decreases i,
{
    let chunks_a = config.chunks_from(a, pos);
    let length = config.anchor(a, pos, a.len() - pos);
    let rest_a = config.chunks_from(a, pos + length);
    config.lemma_anchor_range(a, pos, a.len() - pos);
    lemma_chunks_contiguous(config, a, pos + length);
    if i > 0 {
        assert(chunks_a[i] == rest_a[i - 1]);
    }
    assert(pos + length <= prefix);
    let covered_a = a.subrange(pos, pos + length);
    let covered_b = b.subrange(pos, pos + length);
    assert(covered_a =~= covered_b) by {
        assert forall|j: int| 0 <= j < length implies #[trigger] covered_a[j]
            == covered_b[j] by {
            assert(a.subrange(0, prefix)[pos + j] == a[pos + j]);
            assert(b.subrange(0, prefix)[pos + j] == b[pos + j]);
        }
    }
    lemma_anchor_is_local(config, a, b, pos, a.len() - pos, b.len() - pos);
    let rest_b = config.chunks_from(b, pos + length);
    if i > 0 {
        lemma_chunks_before_edit_unchanged(config, a, b, pos + length, prefix, i - 1);
        assert(config.chunks_from(b, pos)[i] == rest_b[i - 1]);
    }
}

/// A source of exactly `max_size` bytes goes out as one chunk of `max_size`
/// bytes if and only if the hash allows no cut before its end.
pub proof fn lemma_full_window_single_chunk(config: Config, src: Seq<u8>)
    requires
        src.len() == config.max_size,
        0 < config.max_size,
        config.min_size <= config.max_size,
    ensures
        ({
            let whole = seq![Span { offset: 0, length: config.max_size }];
            let max = config.max_size as int;
            config.chunks_from(src, 0) == whole <==> forall|k: int|
                config.min_size < k < max ==> !config.cut_at(src, 0, max, k)
        }),
{
    let max = config.max_size as int;
    let chunks = config.chunks_from(src, 0);
    let whole = seq![Span { offset: 0, length: config.max_size }];
    config.lemma_anchor_range(src, 0, max);
    if forall|k: int| config.min_size < k < max ==> !config.cut_at(src, 0, max, k) {
        if config.has_cut(src, 0, max) {
            let k = choose|k: int| config.min_size < k <= max && config.cut_at(src, 0, max, k);
            config.lemma_first_cut_exists(src, 0, max, k);
        }
        assert(config.anchor(src, 0, max) == max);
        assert(config.chunks_from(src, max) =~= Seq::<Span>::empty());
        assert(chunks =~= whole);
    } else {
        let k = choose|k: int| config.min_size < k < max && config.cut_at(src, 0, max, k);
        config.lemma_first_cut_exists(src, 0, max, k);
        assert(chunks.first().length < max);
        assert(whole.first().length == max);
    }
}

} // verus!
