use cdc_dedup::chunker::chunks;
use cdc_dedup::dedup::DeduplicationTracker;
use cdc_dedup::hashing::polynomial_hash;
use cdc_dedup::sim::{activation_order, build_corpus, run_simulation, Record};

fn lines_of(strs: &[&str]) -> Vec<Vec<u8>> {
    strs.iter().map(|s| s.as_bytes().to_vec()).collect()
}

#[test]
fn tracker_counts_one_chunk() {
    let mut t = DeduplicationTracker::new();
    t.process_chunk(17, &b"abc".to_vec());
    assert_eq!(t.chunk_refs(), 1);
    assert_eq!(t.total_bytes(), 3);
    assert_eq!(t.chunks_bytes(), 3);
    assert_eq!(t.unique_count(), 1);
    assert_eq!(t.hash_count(), 1);
    assert_eq!(t.collisions(), 0);
    assert_eq!(t.bytes_estimate(), 4 * 1 + 3);
}

#[test]
fn tracker_deduplicates_repeated_content() {
    let mut t = DeduplicationTracker::new();
    t.process_chunk(17, &b"abc".to_vec());
    t.process_chunk(17, &b"abc".to_vec());
    assert_eq!(t.chunk_refs(), 2);
    assert_eq!(t.total_bytes(), 6);
    // Only the first copy is stored.
    assert_eq!(t.chunks_bytes(), 3);
    assert_eq!(t.unique_count(), 1);
    assert_eq!(t.hash_count(), 1);
    assert_eq!(t.collisions(), 0);
    assert_eq!(t.bytes_estimate(), 4 * 2 + 3);
}

#[test]
fn tracker_counts_hash_collision() {
    let mut t = DeduplicationTracker::new();
    // Two distinct contents under one boundary hash: one collision.
    t.process_chunk(5, &b"abc".to_vec());
    t.process_chunk(5, &b"xyz".to_vec());
    assert_eq!(t.unique_count(), 2);
    assert_eq!(t.hash_count(), 1);
    assert_eq!(t.collisions(), 1);
}

#[test]
fn tracker_collision_count_never_underflows() {
    let mut t = DeduplicationTracker::new();
    // One content arriving under two different hashes.
    t.process_chunk(1, &b"abc".to_vec());
    t.process_chunk(2, &b"abc".to_vec());
    assert_eq!(t.unique_count(), 1);
    assert_eq!(t.hash_count(), 2);
    assert_eq!(t.collisions(), 0);
}

#[test]
fn tracker_monotonic_over_steps() {
    let mut t = DeduplicationTracker::new();
    let inputs: Vec<(u32, Vec<u8>)> = vec![
        (9, b"aa".to_vec()),
        (9, b"aa".to_vec()),
        (3, b"bb".to_vec()),
        (7, b"aa".to_vec()),
        (3, b"cc".to_vec()),
    ];
    let mut last_unique = 0;
    let mut last_hashes = 0;
    for (h, c) in &inputs {
        t.process_chunk(*h, c);
        let u = t.unique_count();
        let hh = t.hash_count();
        assert!(u >= last_unique);
        assert!(hh >= last_hashes);
        last_unique = u;
        last_hashes = hh;
    }
    assert_eq!(t.unique_count(), 3);
    assert_eq!(t.hash_count(), 3);
}

#[test]
fn activation_order_is_sorted_permutation() {
    let lines = lines_of(&["pear", "apple", "plum", "apple", "fig"]);
    let order = activation_order(&lines);
    assert_eq!(order.len(), lines.len());
    let mut seen = vec![false; lines.len()];
    for &i in &order {
        assert!(!seen[i]);
        seen[i] = true;
    }
    for w in order.windows(2) {
        let ka = polynomial_hash(&lines[w[0]]);
        let kb = polynomial_hash(&lines[w[1]]);
        assert!(ka < kb || (ka == kb && w[0] < w[1]));
    }
}

#[test]
fn build_corpus_joins_active_lines() {
    let records = vec![
        Record { text: b"aa".to_vec(), active: true },
        Record { text: b"bb".to_vec(), active: false },
        Record { text: b"cc".to_vec(), active: true },
    ];
    assert_eq!(build_corpus(&records), b"aa\ncc\n".to_vec());
    let none = vec![Record { text: b"aa".to_vec(), active: false }];
    assert_eq!(build_corpus(&none), b"".to_vec());
}

#[test]
fn simulation_deterministic() {
    let lines = lines_of(&["alpha", "beta", "gamma", "delta", "epsilon"]);
    let rows1 = run_simulation(&lines);
    let rows2 = run_simulation(&lines);
    assert_eq!(rows1.len(), 5);
    assert!(rows1 == rows2);
}

#[test]
fn simulation_empty_input() {
    let rows = run_simulation(&Vec::new());
    assert_eq!(rows.len(), 0);
}

#[test]
fn end_to_end_three_lines() {
    let lines = lines_of(&["aa", "bb", "cc"]);
    let rows = run_simulation(&lines);
    assert_eq!(rows.len(), 3);

    // Replay the run by hand against the library's own pieces.
    let order = activation_order(&lines);
    let mut records: Vec<Record> = lines
        .iter()
        .map(|l| Record { text: l.clone(), active: false })
        .collect();
    let mut tracker = DeduplicationTracker::new();
    let mut corpus_bytes_so_far = 0usize;
    for (k, row) in rows.iter().enumerate() {
        records[order[k]].active = true;
        let corpus = build_corpus(&records);
        // Step 1 holds one line, step 3 all three, joined with separators.
        assert_eq!(corpus.len(), 3 * (k + 1));
        corpus_bytes_so_far += corpus.len();
        let mut emitted = 0usize;
        for c in chunks(&corpus) {
            emitted += c.bytes.len();
            tracker.process_chunk(c.hash, &c.bytes);
        }
        // Every chunked byte is accounted, cumulatively across steps.
        assert_eq!(emitted, corpus.len());
        assert_eq!(row.step, k + 1);
        assert_eq!(row.text_len, corpus.len());
        assert_eq!(row.total_bytes, corpus_bytes_so_far);
        assert_eq!(row.total_bytes, tracker.total_bytes());
        // The headline estimate is exactly the tracker's own counters.
        assert_eq!(
            row.bytes_estimate,
            4 * tracker.chunk_refs() + tracker.chunks_bytes()
        );
        assert_eq!(row.unique_chunks, tracker.unique_count());
        assert_eq!(row.collisions, tracker.collisions());
    }
    assert_eq!(rows[2].text_len, 9);
    assert_eq!(rows[2].total_bytes, 3 + 6 + 9);
}

#[test]
fn simulation_rows_monotonic() {
    let lines = lines_of(&["one", "two", "three", "four", "one"]);
    let rows = run_simulation(&lines);
    for w in rows.windows(2) {
        assert!(w[1].total_bytes >= w[0].total_bytes);
        assert!(w[1].unique_chunks >= w[0].unique_chunks);
        assert!(w[1].bytes_estimate >= w[0].bytes_estimate);
    }
}
