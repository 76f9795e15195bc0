//! Content-defined chunking: cuts a byte sequence at positions where the
//! rolling hash falls under a threshold, forcing a final cut at the end.

use crate::hashing::{roll_acc, rolling_hash};
use vstd::prelude::*;

verus! {

/// Target average chunk length, in bytes.
pub const CHUNK_AVERAGE_SIZE: usize = 64;

/// Boundary threshold, chosen so that a uniformly distributed 32-bit hash
/// falls at or under it with probability about `1 / CHUNK_AVERAGE_SIZE`.
pub const THRESHOLD: u32 = ((u64::MAX / (CHUNK_AVERAGE_SIZE as u64)) >> 32) as u32;

/// One chunk: a copy of a contiguous byte range of the input, tagged with
/// the rolling-hash value observed at its right boundary.
pub struct Chunk {
    pub hash: u32,
    pub bytes: Vec<u8>,
}

/// A chunk ends after `i` bytes (`1 <= i <= len`) when the rolling hash
/// there is at or under the threshold, or the input is exhausted.
pub open spec fn is_boundary(s: Seq<u8>, i: int) -> bool {
    roll_acc(s, i - 1) <= THRESHOLD || i == s.len()
}

/// The spans `(boundary hash, start, end)` produced by scanning `s` from
/// 1-based position `i` with the current chunk open since `start`.
pub open spec fn spans_from(s: Seq<u8>, start: int, i: int) -> Seq<(u32, int, int)>
    decreases s.len() + 1 - i,
{
    if i > s.len() || i < 1 {
        Seq::empty()
    } else if is_boundary(s, i) {
        seq![(roll_acc(s, i - 1), start, i)] + spans_from(s, i, i + 1)
    } else {
        spans_from(s, start, i + 1)
    }
}

/// The chunk spans of a whole input.
pub open spec fn chunk_spans(s: Seq<u8>) -> Seq<(u32, int, int)> {
    spans_from(s, 0, 1)
}

/// Structural facts about a scan that starts inside the input: the spans
/// partition `[start, len)` into non-empty contiguous ranges, each ending at
/// a boundary position carrying the rolling hash of that position.
proof fn lemma_spans_from(s: Seq<u8>, start: int, i: int)
    requires
        0 <= start < i <= s.len(),
    ensures
        spans_from(s, start, i).len() >= 1,
        spans_from(s, start, i)[0].1 == start,
        spans_from(s, start, i).last().2 == s.len(),
        forall|k: int|
            0 <= k < spans_from(s, start, i).len() ==> 0 <= (#[trigger] spans_from(
                s,
                start,
                i,
            )[k]).1 < spans_from(s, start, i)[k].2 <= s.len(),
        forall|k: int|
            #![trigger spans_from(s, start, i)[k], spans_from(s, start, i)[k + 1]]
            0 <= k < spans_from(s, start, i).len() - 1 ==> spans_from(s, start, i)[k].2
                == spans_from(s, start, i)[k + 1].1,
        forall|k: int|
            0 <= k < spans_from(s, start, i).len() ==> (#[trigger] spans_from(s, start, i)[k]).0
                == roll_acc(s, spans_from(s, start, i)[k].2 - 1),
        forall|k: int|
            0 <= k < spans_from(s, start, i).len() ==> is_boundary(
                s,
                (#[trigger] spans_from(s, start, i)[k]).2,
            ),
        spans_from(s, start, i).map_values(|t: (u32, int, int)| s.subrange(t.1, t.2)).flatten()
            == s.subrange(start, s.len() as int),
    decreases s.len() + 1 - i,
{
    let sp = spans_from(s, start, i);
    let bytes_of = |t: (u32, int, int)| s.subrange(t.1, t.2);
    if i == s.len() || is_boundary(s, i) {
        let item = (roll_acc(s, i - 1), start, i);
        let rest = spans_from(s, i, i + 1);
        assert(sp == seq![item] + rest);
        if i == s.len() {
            assert(rest =~= Seq::<(u32, int, int)>::empty());
            assert(sp =~= seq![item]);
            assert(sp.map_values(bytes_of) =~= seq![s.subrange(start, i)]);
            assert(sp.map_values(bytes_of).drop_first() =~= Seq::<Seq<u8>>::empty());
            assert(Seq::<Seq<u8>>::empty().flatten() =~= Seq::<u8>::empty());
            assert(sp.map_values(bytes_of).flatten() =~= s.subrange(start, s.len() as int));
        } else {
            lemma_spans_from(s, i, i + 1);
            assert(sp.len() == 1 + rest.len());
            assert(forall|k: int| 0 <= k < rest.len() ==> sp[k + 1] == rest[k]);
            assert(sp.last() == rest.last());
            assert(sp.map_values(bytes_of) =~= seq![s.subrange(start, i)] + rest.map_values(
                bytes_of,
            ));
            assert(sp.map_values(bytes_of).drop_first() =~= rest.map_values(bytes_of));
            assert(sp.map_values(bytes_of).first() == s.subrange(start, i));
            assert(sp.map_values(bytes_of).flatten() == s.subrange(start, i) + rest.map_values(
                bytes_of,
            ).flatten());
            assert(s.subrange(start, i) + s.subrange(i, s.len() as int) =~= s.subrange(
                start,
                s.len() as int,
            ));
        }
    } else {
        assert(i < s.len());
        lemma_spans_from(s, start, i + 1);
        assert(sp == spans_from(s, start, i + 1));
    }
}

/// Partition: the chunk spans of a non-empty input are non-empty, start at
/// `0`, end at `len`, tile the input contiguously with non-empty ranges, and
/// concatenating the spanned bytes reproduces the input exactly.  Each span
/// carries the rolling hash of its end position, which is a boundary.  An
/// empty input has no spans at all.
pub proof fn lemma_chunk_partition(s: Seq<u8>)
    ensures
        s.len() == 0 ==> chunk_spans(s).len() == 0,
        s.len() > 0 ==> chunk_spans(s).len() >= 1,
        s.len() > 0 ==> chunk_spans(s)[0].1 == 0,
        s.len() > 0 ==> chunk_spans(s).last().2 == s.len(),
        forall|k: int|
            0 <= k < chunk_spans(s).len() ==> 0 <= (#[trigger] chunk_spans(s)[k]).1 < chunk_spans(
                s,
            )[k].2 <= s.len(),
        forall|k: int|
            #![trigger chunk_spans(s)[k], chunk_spans(s)[k + 1]]
            0 <= k < chunk_spans(s).len() - 1 ==> chunk_spans(s)[k].2 == chunk_spans(s)[k + 1].1,
        forall|k: int|
            0 <= k < chunk_spans(s).len() ==> (#[trigger] chunk_spans(s)[k]).0 == roll_acc(
                s,
                chunk_spans(s)[k].2 - 1,
            ),
        forall|k: int|
            0 <= k < chunk_spans(s).len() ==> is_boundary(s, (#[trigger] chunk_spans(s)[k]).2),
        s.len() > 0 ==> chunk_spans(s).map_values(|t: (u32, int, int)| s.subrange(t.1, t.2))
            .flatten() == s,
{
    if s.len() == 0 {
        assert(chunk_spans(s) =~= Seq::<(u32, int, int)>::empty());
    } else {
        lemma_spans_from(s, 0, 1);
        assert(s.subrange(0, s.len() as int) =~= s);
    }
}

/// Splits the input into content-defined chunks: an ordered, gap-free,
/// non-overlapping cover of the whole input, each chunk tagged with the
/// rolling hash at its right boundary (see `lemma_chunk_partition`).
#[verifier::rlimit(100)]
pub fn chunks(input: &[u8]) -> (r: Vec<Chunk>)
    ensures
        r@.len() == chunk_spans(input@).len(),
        forall|k: int|
            0 <= k < r@.len() ==> (#[trigger] r@[k]).hash == chunk_spans(input@)[k].0,
        forall|k: int|
            0 <= k < r@.len() ==> (#[trigger] r@[k]).bytes@ == input@.subrange(
                chunk_spans(input@)[k].1,
                chunk_spans(input@)[k].2,
            ),
{
    let s = Ghost(input@);
    let hashes = rolling_hash(input);
    let mut r: Vec<Chunk> = Vec::new();
    let ghost mut gspans: Seq<(u32, int, int)> = Seq::empty();
    let mut chunk_start: usize = 0;
    let mut i: usize = 0;
    while i < input.len()
        invariant
            s@ == input@,
            hashes@.len() == s@.len(),
            forall|j: int| 0 <= j < s@.len() ==> hashes@[j] == roll_acc(s@, j),
            0 <= chunk_start <= i <= s@.len(),
            i < s@.len() || chunk_start == i,
            chunk_spans(s@) == gspans + spans_from(s@, chunk_start as int, i + 1),
            r@.len() == gspans.len(),
            forall|k: int| 0 <= k < r@.len() ==> (#[trigger] r@[k]).hash == gspans[k].0,
            forall|k: int|
                0 <= k < r@.len() ==> (#[trigger] r@[k]).bytes@ == s@.subrange(
                    gspans[k].1,
                    gspans[k].2,
                ),
        decreases s@.len() - i,
    {
        let h = hashes[i];
        if h <= THRESHOLD || i + 1 == input.len() {
            let end: usize = i + 1;
            let mut bytes: Vec<u8> = Vec::new();
            let mut j: usize = chunk_start;
            while j < end
                invariant
                    s@ == input@,
                    chunk_start <= j <= end,
                    end == i + 1,
                    i < s@.len(),
                    bytes@ == s@.subrange(chunk_start as int, j as int),
                decreases end - j,
            {
                bytes.push(input[j]);
                proof {
                    assert(bytes@ =~= s@.subrange(chunk_start as int, j + 1));
                }
                j = j + 1;
            }
            proof {
                assert(is_boundary(s@, i + 1));
                let item = (h, chunk_start as int, i + 1 as int);
                assert(spans_from(s@, chunk_start as int, i + 1) == seq![item] + spans_from(
                    s@,
                    i + 1,
                    i + 2,
                ));
                assert(gspans + (seq![item] + spans_from(s@, i + 1, i + 2)) =~= gspans.push(item)
                    + spans_from(s@, i + 1, i + 2));
                gspans = gspans.push(item);
            }
            r.push(Chunk { hash: h, bytes });
            chunk_start = i + 1;
        } else {
            proof {
                assert(!is_boundary(s@, i + 1));
                assert(spans_from(s@, chunk_start as int, i + 1) == spans_from(
                    s@,
                    chunk_start as int,
                    i + 2,
                ));
            }
        }
        i = i + 1;
    }
    proof {
        assert(spans_from(s@, chunk_start as int, i + 1) =~= Seq::<(u32, int, int)>::empty());
        assert(chunk_spans(s@) =~= gspans);
    }
    r
}

} // verus!
