use packcdc::{Chunk, PackCDC, MASK_14, MASK_15};
use rand::distributions::{Distribution, Uniform};
use rand::rngs::SmallRng;
use rand::SeedableRng;

fn chunk(offset: usize, length: usize) -> Chunk {
    Chunk { offset, length }
}

/// Bytes from a fixed generator, the same on every machine.
fn sample_bytes(seed: u64, size: usize) -> Vec<u8> {
    let mut state = seed;
    let mut out = Vec::with_capacity(size);
    while out.len() < size {
        state = state.wrapping_add(0x9E37_79B9_7F4A_7C15);
        let mut z = state;
        z = (z ^ (z >> 30)).wrapping_mul(0xBF58_476D_1CE4_E5B9);
        z = (z ^ (z >> 27)).wrapping_mul(0x94D0_49BB_1331_11EB);
        z ^= z >> 31;
        for b in z.to_le_bytes() {
            if out.len() < size {
                out.push(b);
            }
        }
    }
    out
}

fn seeded_bytes(seed: u64, size: usize) -> Vec<u8> {
    let mut rng = SmallRng::seed_from_u64(seed);
    Uniform::new_inclusive(u8::MIN, u8::MAX)
        .sample_iter(&mut rng)
        .take(size)
        .collect()
}

fn small(buffer: &[u8]) -> PackCDC<'_> {
    PackCDC::new_configurable(buffer, 64, 256, 1024, MASK_15, MASK_14)
}

fn assert_end_to_end(chunks: &[Chunk], source_len: usize) {
    let mut at = 0;
    for c in chunks {
        assert_eq!(c.offset, at);
        assert!(c.length > 0);
        at += c.length;
    }
    assert!(at <= source_len);
    assert_eq!(chunks.iter().map(|c| c.length).sum::<usize>(), at);
}

#[test]
fn sample_buffer_with_default_sizes() {
    let buffer = sample_bytes(1, 100_000);
    let chunks = PackCDC::new(&buffer).collect();
    assert_eq!(
        chunks,
        vec![
            chunk(0, 8193),
            chunk(8193, 8194),
            chunk(16387, 8193),
            chunk(24580, 8201),
            chunk(32781, 8865),
            chunk(41646, 8193),
        ]
    );
    assert_eq!(PackCDC::new(&buffer).count(), 6);
}

#[test]
fn sample_buffer_with_small_sizes() {
    let buffer = sample_bytes(1, 100_000);
    let chunks = small(&buffer).collect();
    assert_eq!(chunks.len(), 451);
    let lengths: Vec<usize> = chunks.iter().map(|c| c.length).collect();
    assert_eq!(&lengths[..12], &[66, 66, 1024, 69, 65, 75, 65, 65, 65, 65, 1024, 65]);
    assert_eq!(chunks.last(), Some(&chunk(99101, 65)));
    assert_eq!(lengths.iter().sum::<usize>(), 99166);
}

#[test]
fn chunks_lie_end_to_end() {
    for seed in 0..8 {
        let buffer = sample_bytes(seed, 150_000 + 1000 * seed as usize);
        assert_end_to_end(&PackCDC::new(&buffer).collect(), buffer.len());
        assert_end_to_end(&small(&buffer).collect(), buffer.len());
    }
}

#[test]
fn chunks_keep_to_the_size_limits() {
    for seed in 0..8 {
        let buffer = sample_bytes(seed, 200_000);
        for c in PackCDC::new(&buffer).collect() {
            assert!(8192 < c.length && c.length <= 65536);
        }
        for c in small(&buffer).collect() {
            assert!(64 < c.length && c.length <= 1024);
        }
    }
}

#[test]
fn dropped_tail_is_shorter_than_the_maximum() {
    for seed in 0..8 {
        let buffer = sample_bytes(seed, 200_000);
        let chunks = small(&buffer).collect();
        let end = chunks.last().map_or(0, |c| c.offset + c.length);
        assert!(buffer.len() - end < 1024);
        let chunks = PackCDC::new(&buffer).collect();
        let end = chunks.last().map_or(0, |c| c.offset + c.length);
        assert!(buffer.len() - end < 65536);
    }
}

#[test]
fn dropped_tail_of_the_sample_buffer() {
    // After the sixth chunk 50161 bytes are left, with no cut among them.
    let buffer = sample_bytes(1, 100_000);
    let mut chunker = PackCDC::new(&buffer);
    assert_eq!(chunker.find_anchor(49839, 50161), 0);
    assert_eq!(chunker.clone().collect().last(), Some(&chunk(41646, 8193)));
}

#[test]
fn same_bytes_give_the_same_chunks() {
    let buffer = sample_bytes(5, 300_000);
    let copy = buffer.clone();
    assert_eq!(PackCDC::new(&buffer).collect(), PackCDC::new(&copy).collect());
    assert_eq!(small(&buffer).collect(), small(&copy).collect());
    assert_eq!(small(&buffer).collect(), small(&buffer).collect());
}

#[test]
fn seeded_buffer_is_chunked_the_same_on_every_run() {
    let first = seeded_bytes(1, 100_000);
    let second = seeded_bytes(1, 100_000);
    assert_eq!(first, second);
    let chunks = PackCDC::new(&first).collect();
    assert_eq!(chunks, PackCDC::new(&second).collect());
    assert_eq!(chunks.len(), PackCDC::new(&first).count());
    assert_eq!(
        chunks,
        vec![
            chunk(0, 46056),
            chunk(46056, 8194),
            chunk(54250, 8194),
            chunk(62444, 8193),
            chunk(70637, 8193),
            chunk(78830, 8193),
            chunk(87023, 8194),
        ]
    );
    assert_end_to_end(&chunks, 100_000);
    for c in &chunks {
        assert!(8192 < c.length && c.length <= 65536);
    }
    let end = chunks.last().map_or(0, |c| c.offset + c.length);
    assert!(100_000 - end < 65536);
}

#[test]
fn chunks_before_an_insertion_are_unchanged() {
    let buffer = sample_bytes(1, 100_000);
    let base = small(&buffer).collect();
    let mut edited = buffer.clone();
    edited.insert(50_000, 0x55);
    let after = small(&edited).collect();
    // 243 chunks end before byte 50000; the next one, at 49991, spans it.
    assert_eq!(base[242], chunk(49926, 65));
    assert_eq!(base[243], chunk(49991, 1024));
    assert_eq!(&after[..243], &base[..243]);
    assert_eq!(after[243], chunk(49991, 69));
}

#[test]
fn chunks_before_a_deletion_are_unchanged() {
    let buffer = sample_bytes(1, 100_000);
    let base = small(&buffer).collect();
    let mut edited = buffer.clone();
    edited.remove(50_000);
    let after = small(&edited).collect();
    assert_eq!(&after[..243], &base[..243]);
}

#[test]
fn chunks_before_a_changed_byte_are_unchanged() {
    let buffer = sample_bytes(1, 100_000);
    let base = small(&buffer).collect();
    for at in [50_060usize, 51_079, 51_080, 51_145] {
        let mut edited = buffer.clone();
        edited[at] ^= 0xff;
        let after = small(&edited).collect();
        for (i, c) in base.iter().enumerate() {
            if c.offset + c.length <= at {
                assert_eq!(after[i], *c);
            }
        }
    }
}

#[test]
fn changed_byte_within_the_minimum_of_its_chunk_changes_nothing() {
    // Byte 50000 is among the first 64 bytes of the chunk at 49991, which
    // are never hashed.
    let buffer = sample_bytes(1, 100_000);
    let mut edited = buffer.clone();
    edited[50_000] ^= 0xff;
    assert_eq!(small(&edited).collect(), small(&buffer).collect());
}

#[test]
fn changed_byte_that_brings_no_cut_is_forgotten() {
    // Byte 50100 is hashed, but allows no cut while the hash still holds it,
    // and the chunk at 49991 ends far behind it.
    let buffer = sample_bytes(1, 100_000);
    let mut edited = buffer.clone();
    edited[50_100] ^= 0xff;
    assert_eq!(small(&edited).collect(), small(&buffer).collect());
}

#[test]
fn boundaries_can_meet_again_after_a_changed_byte() {
    let buffer = sample_bytes(1, 100_000);
    let base = small(&buffer).collect();
    let mut edited = buffer.clone();
    edited[51_145] ^= 0xff;
    let after = small(&edited).collect();
    assert_eq!(&after[..245], &base[..245]);
    assert_eq!(base[245], chunk(51081, 65));
    assert_eq!(after[245], chunk(51081, 1024));
    // From byte 84883 on both are cut alike again.
    let base_tail: Vec<&Chunk> = base.iter().filter(|c| c.offset >= 84883).collect();
    let after_tail: Vec<&Chunk> = after.iter().filter(|c| c.offset >= 84883).collect();
    assert_eq!(base_tail.first().map(|c| c.offset), Some(84883));
    assert_eq!(base_tail, after_tail);
}

#[test]
fn source_cut_short_keeps_its_earlier_chunks() {
    let buffer = sample_bytes(1, 100_000);
    let base = small(&buffer).collect();
    let after = small(&buffer[..60_000]).collect();
    for (i, c) in base.iter().enumerate() {
        if c.offset + c.length <= 60_000 {
            assert_eq!(after[i], *c);
        }
    }
}
