use cdc_dedup::chunker::{chunks, CHUNK_AVERAGE_SIZE, THRESHOLD};
use cdc_dedup::hashing::{polynomial_hash, rolling_hash, MUL_OUT, PRIME, WINDOW};

fn pseudo_random_bytes(n: usize, seed: u64) -> Vec<u8> {
    let mut state = seed;
    let mut out = Vec::with_capacity(n);
    for _ in 0..n {
        state = state
            .wrapping_mul(6364136223846793005)
            .wrapping_add(1442695040888963407);
        out.push((state >> 33) as u8);
    }
    out
}

fn reassemble(input: &[u8]) -> Vec<u8> {
    let mut out = Vec::new();
    for c in chunks(input) {
        out.extend_from_slice(&c.bytes);
    }
    out
}

#[test]
fn threshold_derivation() {
    assert_eq!(CHUNK_AVERAGE_SIZE, 64);
    assert_eq!(THRESHOLD, 0x03ff_ffff);
    assert_eq!(PRIME, 0xa88d411b);
    assert_eq!(WINDOW, 32);
    assert_eq!(MUL_OUT, PRIME.wrapping_pow(WINDOW as u32));
}

#[test]
fn partition_small_input() {
    let input = b"hello, chunked world\n";
    assert_eq!(reassemble(input), input.to_vec());
}

#[test]
fn partition_large_input() {
    let input = pseudo_random_bytes(10_000, 42);
    let cs = chunks(&input);
    assert!(cs.len() > 1);
    // Contiguous, non-overlapping, gap-free cover of the whole input.
    assert_eq!(reassemble(&input), input);
    for c in &cs {
        assert!(!c.bytes.is_empty());
    }
}

#[test]
fn final_boundary_forced() {
    // No 21-byte input can end on a natural boundary check alone; the last
    // chunk must still end exactly at the input length.
    let input = pseudo_random_bytes(21, 7);
    let cs = chunks(&input);
    assert!(!cs.is_empty());
    let total: usize = cs.iter().map(|c| c.bytes.len()).sum();
    assert_eq!(total, input.len());
    let last = cs.last().unwrap();
    assert_eq!(&input[input.len() - last.bytes.len()..], &last.bytes[..]);
}

#[test]
fn empty_input_yields_no_chunks() {
    let cs = chunks(b"");
    assert_eq!(cs.len(), 0);
}

#[test]
fn boundary_rule_matches_rolling_hash() {
    let input = pseudo_random_bytes(5_000, 3);
    let hashes = rolling_hash(&input);
    let cs = chunks(&input);
    let mut end = 0usize;
    for (i, c) in cs.iter().enumerate() {
        end += c.bytes.len();
        // The chunk's tag is the rolling hash at its right boundary.
        assert_eq!(c.hash, hashes[end - 1]);
        // Every boundary is natural or final.
        assert!(c.hash <= THRESHOLD || end == input.len());
        // Every position strictly inside a chunk is no boundary.
        let start = end - c.bytes.len();
        for p in start..end - 1 {
            assert!(hashes[p] > THRESHOLD);
        }
        if i + 1 == cs.len() {
            assert_eq!(end, input.len());
        }
    }
}

#[test]
fn average_chunk_size_near_target() {
    let input = pseudo_random_bytes(1 << 18, 12345);
    let cs = chunks(&input);
    let mean = input.len() as f64 / cs.len() as f64;
    let target = CHUNK_AVERAGE_SIZE as f64;
    assert!(
        mean > target * 0.75 && mean < target * 1.25,
        "mean chunk length {} too far from {}",
        mean,
        target
    );
}

#[test]
fn rolling_hash_matches_windowed_polynomial_hash() {
    let input = pseudo_random_bytes(300, 99);
    let hashes = rolling_hash(&input);
    assert_eq!(hashes.len(), input.len());
    for i in 0..input.len() {
        let lo = if i + 1 >= WINDOW { i + 1 - WINDOW } else { 0 };
        let expect = polynomial_hash(&input[lo..i + 1]);
        assert_eq!(hashes[i], expect, "window hash mismatch at {}", i);
    }
}

#[test]
fn rolling_hash_empty_input() {
    assert_eq!(rolling_hash(b"").len(), 0);
}

#[test]
fn polynomial_hash_values() {
    assert_eq!(polynomial_hash(b""), 0);
    assert_eq!(polynomial_hash(b"\x01"), 1);
    assert_eq!(
        polynomial_hash(b"ab"),
        (b'a' as u32).wrapping_mul(PRIME).wrapping_add(b'b' as u32)
    );
}
