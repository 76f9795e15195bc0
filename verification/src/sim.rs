//! The simulation driver: activates records one by one in a pseudo-random
//! but fully deterministic order, re-chunks the active corpus after each
//! activation, and derives one report row per step from the cumulative
//! deduplication state.

use crate::chunker::{chunk_spans, chunks, lemma_chunk_partition};
use vstd::arithmetic::mul::lemma_mul_inequality;
use crate::dedup::{
    lemma_tm_fold_init_finite, lemma_tm_fold_len_monotonic, lemma_tm_fold_monotonic, tm_fold,
    tm_init, tm_step, DeduplicationTracker, TrackerModel,
};
use crate::hashing::{poly_hash, polynomial_hash};
use vstd::prelude::*;

verus! {

/// One line of input text with its activation flag.
pub struct Record {
    pub text: Vec<u8>,
    pub active: bool,
}

/// The byte sequences of a list of lines.
pub open spec fn lines_view(lines: Seq<Vec<u8>>) -> Seq<Seq<u8>> {
    lines.map_values(|v: Vec<u8>| v@)
}

/// The sort key of record `i`: the full polynomial hash of its text.
pub open spec fn order_key(lines: Seq<Seq<u8>>, i: int) -> nat {
    poly_hash(lines[i])
}

/// The strict total activation order on record indices: by hash key,
/// with the original index breaking ties.
pub open spec fn key_lt(lines: Seq<Seq<u8>>, a: int, b: int) -> bool {
    order_key(lines, a) < order_key(lines, b) || (order_key(lines, a) == order_key(lines, b) && a
        < b)
}

/// `order` is the activation order of `lines`: a permutation of all record
/// indices, strictly ascending by `key_lt`.
pub open spec fn is_activation_order(lines: Seq<Seq<u8>>, order: Seq<usize>) -> bool {
    &&& order.len() == lines.len()
    &&& forall|j: int| 0 <= j < order.len() ==> (#[trigger] order[j]) < lines.len()
    &&& forall|j: int, k: int|
        0 <= j < k < order.len() ==> key_lt(lines, #[trigger] order[j] as int, #[trigger] order[k] as int)
    &&& forall|v: usize| v < lines.len() ==> order.contains(v)
}

/// The activation order, as a mathematical function of the lines alone;
/// `lemma_activation_order_unique` shows there is exactly one.
pub open spec fn the_order(lines: Seq<Seq<u8>>) -> Seq<usize> {
    choose|o: Seq<usize>| is_activation_order(lines, o)
}

/// `key_lt` never holds both ways.
proof fn lemma_key_lt_asymmetric(lines: Seq<Seq<u8>>, a: int, b: int)
    ensures
        !(key_lt(lines, a, b) && key_lt(lines, b, a)),
{
}

/// Two activation orders of the same lines agree on every position below `j`.
proof fn lemma_order_prefix(lines: Seq<Seq<u8>>, o1: Seq<usize>, o2: Seq<usize>, j: int)
    requires
        is_activation_order(lines, o1),
        is_activation_order(lines, o2),
        0 <= j <= o1.len(),
    ensures
        forall|i: int| 0 <= i < j ==> o1[i] == o2[i],
    decreases j,
{
    if j > 0 {
        lemma_order_prefix(lines, o1, o2, j - 1);
        let p = j - 1;
        let a = o1[p] as int;
        let b = o2[p] as int;
        if a != b {
            // `b` occurs somewhere in `o1`.
            assert(o1.contains(o2[p]));
            let qb = choose|q: int| 0 <= q < o1.len() && o1[q] == o2[p];
            assert(o1[qb] as int == b);
            // Not before position p: those slots hold o2's prefix, where `b`
            // cannot repeat (strict sortedness makes entries distinct).
            assert forall|i: int| 0 <= i < p implies o1[i] as int != b by {
                if o1[i] as int == b {
                    assert(o2[i] == o1[i]);
                    assert(key_lt(lines, o2[i] as int, o2[p] as int));
                    lemma_key_lt_asymmetric(lines, b, b);
                }
            }
            assert(qb > p);
            assert(key_lt(lines, a, b));
            // Symmetrically, `a` occurs in `o2` only after position p.
            assert(o2.contains(o1[p]));
            let qa = choose|q: int| 0 <= q < o2.len() && o2[q] == o1[p];
            assert(o2[qa] as int == a);
            assert forall|i: int| 0 <= i < p implies o2[i] as int != a by {
                if o2[i] as int == a {
                    assert(o1[i] == o2[i]);
                    assert(key_lt(lines, o1[i] as int, o1[p] as int));
                    lemma_key_lt_asymmetric(lines, a, a);
                }
            }
            assert(qa > p);
            assert(key_lt(lines, b, a));
            lemma_key_lt_asymmetric(lines, a, b);
        }
    }
}

/// Determinism of the shuffle: the activation order of a list of lines is
/// unique, so re-running on identical input activates records identically.
pub proof fn lemma_activation_order_unique(lines: Seq<Seq<u8>>, o1: Seq<usize>, o2: Seq<usize>)
    requires
        is_activation_order(lines, o1),
        is_activation_order(lines, o2),
    ensures
        o1 == o2,
{
    lemma_order_prefix(lines, o1, o2, o1.len() as int);
    assert(o1 =~= o2);
}

/// Computes the activation order: record indices sorted by the polynomial
/// hash of their text, ties broken by index.  Deterministic for fixed input.
pub fn activation_order(lines: &Vec<Vec<u8>>) -> (order: Vec<usize>)
    ensures
        is_activation_order(lines_view(lines@), order@),
        order@ == the_order(lines_view(lines@)),
{
    let ghost lv = lines_view(lines@);
    let n = lines.len();
    let mut keys: Vec<u32> = Vec::new();
    let mut i: usize = 0;
    while i < n
        invariant
            lv == lines_view(lines@),
            n == lines@.len(),
            0 <= i <= n,
            keys@.len() == i,
            forall|t: int| 0 <= t < i ==> (#[trigger] keys@[t]) as nat == order_key(lv, t),
        decreases n - i,
    {
        let k = polynomial_hash(lines[i].as_slice());
        keys.push(k);
        i = i + 1;
    }
    let mut order: Vec<usize> = Vec::new();
    let mut idx: usize = 0;
    while idx < n
        invariant
            lv == lines_view(lines@),
            n == lines@.len(),
            keys@.len() == n,
            forall|t: int| 0 <= t < n ==> (#[trigger] keys@[t]) as nat == order_key(lv, t),
            0 <= idx <= n,
            order@.len() == idx,
            forall|j: int| 0 <= j < order@.len() ==> (#[trigger] order@[j]) < idx,
            forall|j: int, k: int|
                0 <= j < k < order@.len() ==> key_lt(
                    lv,
                    #[trigger] order@[j] as int,
                    #[trigger] order@[k] as int,
                ),
            forall|v: usize| v < idx ==> order@.contains(v),
        decreases n - idx,
    {
        let key = keys[idx];
        let mut q: usize = 0;
        while q < order.len() && keys[order[q]] <= key
            invariant
                lv == lines_view(lines@),
                n == lines@.len(),
                keys@.len() == n,
                forall|t: int| 0 <= t < n ==> (#[trigger] keys@[t]) as nat == order_key(lv, t),
                idx < n,
                key == keys@[idx as int],
                order@.len() == idx,
                forall|j: int| 0 <= j < order@.len() ==> (#[trigger] order@[j]) < idx,
                0 <= q <= order@.len(),
                forall|j: int|
                    0 <= j < q ==> key_lt(lv, #[trigger] order@[j] as int, idx as int),
            decreases order@.len() - q,
        {
            proof {
                assert(order@[q as int] < idx);
                assert(keys@[order@[q as int] as int] as nat == order_key(
                    lv,
                    order@[q as int] as int,
                ));
            }
            q = q + 1;
        }
        proof {
            if q < order@.len() {
                // The scan stopped on a strictly larger key.
                assert(keys@[order@[q as int] as int] > key);
                assert(order_key(lv, order@[q as int] as int) > order_key(lv, idx as int));
            }
        }
        let ghost old_order = order@;
        order.insert(q, idx);
        proof {
            let new_order = order@;
            assert(new_order == old_order.insert(q as int, idx));
            assert(new_order.len() == idx + 1);
            assert(forall|j: int| 0 <= j < q ==> new_order[j] == old_order[j]);
            assert(new_order[q as int] == idx);
            assert(forall|j: int|
                q < j < new_order.len() ==> new_order[j] == old_order[j - 1]);
            // Sortedness across the insertion point.
            assert forall|j: int, k: int|
                0 <= j < k < new_order.len() implies key_lt(
                lv,
                new_order[j] as int,
                new_order[k] as int,
            ) by {
                if j < q && k < q {
                } else if j < q && k == q {
                    assert(key_lt(lv, old_order[j] as int, idx as int));
                } else if j < q && k > q {
                    assert(key_lt(lv, old_order[j] as int, old_order[k - 1] as int));
                } else if j == q {
                    // idx against a former element at position k-1 >= q.
                    let v = old_order[k - 1] as int;
                    assert(v < idx);
                    if k - 1 == q {
                        assert(order_key(lv, v) > order_key(lv, idx as int));
                    } else {
                        assert(key_lt(lv, old_order[q as int] as int, v));
                        assert(order_key(lv, old_order[q as int] as int) > order_key(
                            lv,
                            idx as int,
                        ));
                    }
                    assert(key_lt(lv, idx as int, v));
                } else {
                    assert(key_lt(lv, old_order[j - 1] as int, old_order[k - 1] as int));
                }
            }
            // Every value up to and including idx occurs.
            assert forall|v: usize| v < idx + 1 implies new_order.contains(v) by {
                if v == idx {
                    assert(new_order[q as int] == v);
                } else {
                    assert(old_order.contains(v));
                    let j0 = choose|j: int| 0 <= j < old_order.len() && old_order[j] == v;
                    if j0 < q {
                        assert(new_order[j0] == v);
                    } else {
                        assert(new_order[j0 + 1] == v);
                    }
                }
            }
        }
        idx = idx + 1;
    }
    proof {
        assert(is_activation_order(lv, order@));
        let o = the_order(lv);
        assert(is_activation_order(lv, o)) by {
            assert(exists|x: Seq<usize>| is_activation_order(lv, x)) by {
                assert(is_activation_order(lv, order@));
            }
        }
        lemma_activation_order_unique(lv, order@, o);
    }
    order
}

/// Sum over all lines of the line length plus one separator byte: an upper
/// bound on the corpus size of any step.
pub open spec fn total_raw_len(lines: Seq<Seq<u8>>) -> nat
    decreases lines.len(),
{
    if lines.len() == 0 {
        0
    } else {
        total_raw_len(lines.drop_last()) + lines.last().len() + 1
    }
}

/// The records active after the first `k` activations of `order`.
pub open spec fn active_after(order: Seq<usize>, k: int) -> Set<int> {
    Set::new(|i: int| exists|j: int| 0 <= j < k && (#[trigger] order[j]) as int == i)
}

/// The corpus of the active records among `lines`: their bytes in original
/// order, a newline after each.
pub open spec fn corpus_sel(lines: Seq<Seq<u8>>, act: Set<int>) -> Seq<u8>
    decreases lines.len(),
{
    if lines.len() == 0 {
        Seq::empty()
    } else {
        corpus_sel(lines.drop_last(), act) + if act.contains(lines.len() - 1) {
            lines.last() + seq![10u8]
        } else {
            Seq::empty()
        }
    }
}

/// The corpus after the first `k` activations.
pub open spec fn corpus_at(lines: Seq<Seq<u8>>, order: Seq<usize>, k: int) -> Seq<u8> {
    corpus_sel(lines, active_after(order, k))
}

/// The `(hash, content)` chunk pairs of one corpus snapshot.
pub open spec fn step_pairs(c: Seq<u8>) -> Seq<(u32, Seq<u8>)> {
    chunk_spans(c).map_values(|t: (u32, int, int)| (t.0, c.subrange(t.1, t.2)))
}

/// All chunk pairs fed to the tracker by steps `1..=k`, in order.
pub open spec fn history_upto(lines: Seq<Seq<u8>>, order: Seq<usize>, k: int) -> Seq<
    (u32, Seq<u8>),
>
    decreases k,
{
    if k <= 0 {
        Seq::empty()
    } else {
        history_upto(lines, order, k - 1) + step_pairs(corpus_at(lines, order, k))
    }
}

/// One row of the report: the step index and the metrics derived from the
/// corpus and the cumulative tracker state after that step.
#[derive(PartialEq, Eq, Structural, Clone, Copy, Debug)]
pub struct ReportRow {
    pub step: usize,
    pub text_len: usize,
    pub bytes_estimate: usize,
    pub total_bytes: usize,
    pub unique_chunks: usize,
    pub collisions: usize,
}

/// What row `k` (0-based) of the report must hold: the metrics of the model
/// obtained by folding the whole chunk history of steps `1..=k+1`.
pub open spec fn row_matches(
    lines: Seq<Seq<u8>>,
    order: Seq<usize>,
    k: int,
    row: ReportRow,
) -> bool {
    let m = tm_fold(tm_init(), history_upto(lines, order, k + 1));
    &&& row.step == k + 1
    &&& row.text_len as nat == corpus_at(lines, order, k + 1).len()
    &&& row.bytes_estimate as nat == 4 * m.refs + m.stored_bytes
    &&& row.total_bytes as nat == m.total
    &&& row.unique_chunks as nat == m.stored.len()
    &&& row.collisions as nat == if m.stored.len() >= m.hashes.len() {
        (m.stored.len() - m.hashes.len()) as nat
    } else {
        0
    }
}

/// The whole report of a run: one row per record, each pinned down by
/// `row_matches` under the unique activation order of the lines.
pub open spec fn rows_match(lines: Seq<Seq<u8>>, rows: Seq<ReportRow>) -> bool {
    &&& rows.len() == lines.len()
    &&& forall|k: int|
        0 <= k < rows.len() ==> row_matches(lines, the_order(lines), k, #[trigger] rows[k])
}

/// Determinism: the report is a function of the input lines alone, so two
/// runs on identical input produce identical rows.
pub proof fn lemma_simulation_deterministic(
    lines: Seq<Seq<u8>>,
    rows1: Seq<ReportRow>,
    rows2: Seq<ReportRow>,
)
    requires
        rows_match(lines, rows1),
        rows_match(lines, rows2),
    ensures
        rows1 == rows2,
{
    assert forall|k: int| 0 <= k < rows1.len() implies rows1[k] == rows2[k] by {
        assert(row_matches(lines, the_order(lines), k, rows1[k]));
        assert(row_matches(lines, the_order(lines), k, rows2[k]));
    }
    assert(rows1 =~= rows2);
}

/// Monotonic dedup accounting: from one report row to the next, the
/// cumulative raw size, the distinct-chunk count and the storage estimate
/// never decrease.
pub proof fn lemma_report_monotonic(lines: Seq<Seq<u8>>, rows: Seq<ReportRow>)
    requires
        rows_match(lines, rows),
    ensures
        forall|k: int|
            #![trigger rows[k], rows[k + 1]]
            0 <= k < rows.len() - 1 ==> rows[k].unique_chunks <= rows[k + 1].unique_chunks
                && rows[k].total_bytes <= rows[k + 1].total_bytes && rows[k].bytes_estimate
                <= rows[k + 1].bytes_estimate,
{
    let ord = the_order(lines);
    assert forall|k: int|
        #![trigger rows[k], rows[k + 1]]
        0 <= k < rows.len() - 1 implies rows[k].unique_chunks <= rows[k + 1].unique_chunks
        && rows[k].total_bytes <= rows[k + 1].total_bytes && rows[k].bytes_estimate <= rows[k
        + 1].bytes_estimate by {
        assert(row_matches(lines, ord, k, rows[k]));
        assert(row_matches(lines, ord, k + 1, rows[k + 1]));
        let h1 = history_upto(lines, ord, k + 1);
        let sp2 = step_pairs(corpus_at(lines, ord, k + 2));
        assert(history_upto(lines, ord, k + 2) == h1 + sp2);
        lemma_tm_fold_append(tm_init(), h1, sp2);
        lemma_tm_fold_init_finite(h1);
        lemma_tm_fold_monotonic(tm_fold(tm_init(), h1), sp2);
        lemma_tm_fold_len_monotonic(tm_fold(tm_init(), h1), sp2);
    }
}

/// A corpus never exceeds the total raw size of all lines.
proof fn lemma_corpus_sel_bound(lines: Seq<Seq<u8>>, act: Set<int>)
    ensures
        corpus_sel(lines, act).len() <= total_raw_len(lines),
    decreases lines.len(),
{
    if lines.len() > 0 {
        lemma_corpus_sel_bound(lines.drop_last(), act);
    }
}

/// The executable corpus of a record list equals the specification corpus of
/// its lines under the set of active indices.
proof fn lemma_corpus_of_sel(records: Seq<Record>, lines: Seq<Seq<u8>>, act: Set<int>)
    requires
        records.len() == lines.len(),
        forall|i: int| 0 <= i < records.len() ==> (#[trigger] records[i]).text@ == lines[i],
        forall|i: int| 0 <= i < records.len() ==> (#[trigger] records[i]).active == act.contains(i),
    ensures
        corpus_of(records) == corpus_sel(lines, act),
    decreases records.len(),
{
    if records.len() > 0 {
        assert(records.drop_last().len() == lines.drop_last().len());
        assert(forall|i: int|
            0 <= i < records.len() - 1 ==> (#[trigger] records.drop_last()[i]) == records[i]);
        assert(forall|i: int|
            0 <= i < lines.len() - 1 ==> (#[trigger] lines.drop_last()[i]) == lines[i]);
        lemma_corpus_of_sel(records.drop_last(), lines.drop_last(), act);
        assert(records.last().text@ == lines.last());
        assert(records.last().active == act.contains(records.len() - 1));
    }
}

/// Folding a concatenated history is folding its parts in turn.
proof fn lemma_tm_fold_append(m: TrackerModel, a: Seq<(u32, Seq<u8>)>, b: Seq<(u32, Seq<u8>)>)
    ensures
        tm_fold(m, a + b) == tm_fold(tm_fold(m, a), b),
    decreases b.len(),
{
    if b.len() == 0 {
        assert(a + b =~= a);
    } else {
        lemma_tm_fold_append(m, a, b.drop_last());
        assert((a + b).drop_last() =~= a + b.drop_last());
        assert((a + b).last() == b.last());
    }
}

/// The corpus bytes of the executable records, in original record order,
/// a newline after each active one.
pub open spec fn corpus_of(records: Seq<Record>) -> Seq<u8>
    decreases records.len(),
{
    if records.len() == 0 {
        Seq::empty()
    } else {
        corpus_of(records.drop_last()) + if records.last().active {
            records.last().text@ + seq![10u8]
        } else {
            Seq::empty()
        }
    }
}

/// Materializes the current corpus: the text of every active record in
/// original order, each followed by a newline separator.
pub fn build_corpus(records: &Vec<Record>) -> (r: Vec<u8>)
    ensures
        r@ == corpus_of(records@),
{
    let mut r: Vec<u8> = Vec::new();
    let mut i: usize = 0;
    while i < records.len()
        invariant
            0 <= i <= records@.len(),
            r@ == corpus_of(records@.take(i as int)),
        decreases records@.len() - i,
    {
        proof {
            assert(records@.take(i + 1).drop_last() =~= records@.take(i as int));
            assert(records@.take(i + 1).last() == records@[i as int]);
        }
        if records[i].active {
            let text = &records[i].text;
            let mut j: usize = 0;
            let ghost base = r@;
            while j < text.len()
                invariant
                    0 <= j <= text@.len(),
                    r@ == base + text@.subrange(0, j as int),
                decreases text@.len() - j,
            {
                r.push(text[j]);
                proof {
                    assert(base + text@.subrange(0, j as int) + seq![text@[j as int]] =~= base
                        + text@.subrange(0, j + 1));
                }
                j = j + 1;
            }
            r.push(10u8);
            proof {
                assert(text@.subrange(0, text@.len() as int) =~= text@);
                assert(base + text@ + seq![10u8] =~= corpus_of(records@.take(i + 1)));
            }
        } else {
            proof {
                assert(r@ + Seq::<u8>::empty() =~= r@);
                assert(r@ =~= corpus_of(records@.take(i + 1)));
            }
        }
        i = i + 1;
    }
    proof {
        assert(records@.take(records@.len() as int) =~= records@);
    }
    r
}

/// An exact copy of a byte vector.
fn copy_bytes(v: &Vec<u8>) -> (r: Vec<u8>)
    ensures
        r@ == v@,
{
    let mut r: Vec<u8> = Vec::new();
    let mut j: usize = 0;
    while j < v.len()
        invariant
            0 <= j <= v@.len(),
            r@ == v@.subrange(0, j as int),
        decreases v@.len() - j,
    {
        r.push(v[j]);
        proof {
            assert(r@ =~= v@.subrange(0, j + 1));
        }
        j = j + 1;
    }
    proof {
        assert(v@.subrange(0, v@.len() as int) =~= v@);
    }
    r
}


/// Headroom: while fewer than `n * trl` bytes (with `trl` the total raw
/// size) have been consumed, every counter update of one more chunk stays
/// within the machine word.
proof fn lemma_step_headroom(
    m: TrackerModel,
    base_total: nat,
    k: int,
    n: int,
    trl: nat,
    end: int,
    len: int,
)
    requires
        m.refs <= m.total,
        m.stored_bytes <= m.total,
        m.total + len == base_total + end,
        base_total <= k * trl,
        end <= trl,
        1 <= len,
        0 <= k < n,
        5 * (n * trl) <= usize::MAX,
    ensures
        m.total + len <= (n as nat) * trl,
        m.total + len <= usize::MAX,
        m.refs + 1 <= usize::MAX,
        m.stored_bytes + len <= usize::MAX,
{
    assert((k + 1) * trl == k * trl + trl) by (nonlinear_arith);
    lemma_mul_inequality(k + 1, n, trl as int);
    assert(m.total + len <= (k + 1) * trl);
    assert((n * trl) <= 5 * (n * trl)) by (nonlinear_arith)
        requires
            0 <= n * trl,
    ;
    assert(0 <= n * trl) by (nonlinear_arith)
        requires
            0 <= n && 0 <= trl,
    ;
}


/// Headroom for the storage estimate and the next step's bound.
proof fn lemma_estimate_headroom(m: TrackerModel, k: int, n: int, trl: nat)
    requires
        m.refs <= m.total,
        m.stored_bytes <= m.total,
        m.total <= k * trl + trl,
        0 <= k < n,
        5 * (n * trl) <= usize::MAX,
    ensures
        m.total <= (k + 1) * trl,
        m.total <= (n as nat) * trl,
        4 * m.refs + m.stored_bytes <= usize::MAX,
{
    assert((k + 1) * trl == k * trl + trl) by (nonlinear_arith);
    lemma_mul_inequality(k + 1, n, trl as int);
    assert(0 <= n * trl) by (nonlinear_arith)
        requires
            0 <= n && 0 <= trl,
    ;
    assert(4 * m.refs + m.stored_bytes <= 5 * m.total);
    assert(5 * m.total <= 5 * (n * trl));
}



/// The chunk-end positions of a corpus.
pub open spec fn chunk_ends(c: Seq<u8>) -> Seq<int> {
    chunk_spans(c).map_values(|t: (u32, int, int)| t.2)
}

/// Facts about chunk `t` of one corpus: it is non-empty, its length is the
/// gap between consecutive end positions, and its end stays in the corpus.
#[verifier::rlimit(100)]
proof fn lemma_step_pair_at(c: Seq<u8>, t: int)
    requires
        0 <= t < step_pairs(c).len(),
    ensures
        step_pairs(c)[t].0 == chunk_spans(c)[t].0,
        step_pairs(c)[t].1 == c.subrange(chunk_spans(c)[t].1, chunk_spans(c)[t].2),
        0 < step_pairs(c)[t].1.len(),
        step_pairs(c)[t].1.len() == chunk_ends(c)[t] - (if t == 0 {
            0int
        } else {
            chunk_ends(c)[t - 1]
        }),
        chunk_ends(c)[t] <= c.len(),
{
    let sp = chunk_spans(c);
    lemma_chunk_partition(c);
    assert(step_pairs(c)[t] == (sp[t].0, c.subrange(sp[t].1, sp[t].2)));
    assert(chunk_ends(c)[t] == sp[t].2);
    assert(sp[t].1 < sp[t].2 <= c.len());
    if t == 0 {
        assert(sp[0].1 == 0);
    } else {
        assert(chunk_ends(c)[t - 1] == sp[t - 1].2);
        let u = t - 1;
        assert(sp[u + 1] == sp[t]);
        assert(sp[u].2 == sp[u + 1].1);
    }
}

/// Elementwise facts about all chunk pairs of one corpus.
proof fn lemma_step_pairs_facts(c: Seq<u8>)
    ensures
        step_pairs(c).len() == chunk_spans(c).len(),
        chunk_ends(c).len() == chunk_spans(c).len(),
        forall|t: int|
            0 <= t < step_pairs(c).len() ==> (#[trigger] step_pairs(c)[t]).0 == chunk_spans(
                c,
            )[t].0 && step_pairs(c)[t].1 == c.subrange(chunk_spans(c)[t].1, chunk_spans(c)[t].2),
        forall|t: int|
            0 <= t < step_pairs(c).len() ==> 0 < (#[trigger] step_pairs(c)[t].1).len()
                && step_pairs(c)[t].1.len() == chunk_ends(c)[t] - (if t == 0 {
                0int
            } else {
                chunk_ends(c)[t - 1]
            }) && chunk_ends(c)[t] <= c.len(),
{
    assert forall|t: int| 0 <= t < step_pairs(c).len() implies (#[trigger] step_pairs(c)[t]).0
        == chunk_spans(c)[t].0 && step_pairs(c)[t].1 == c.subrange(
        chunk_spans(c)[t].1,
        chunk_spans(c)[t].2,
    ) by {
        lemma_step_pair_at(c, t);
    }
    assert forall|t: int| 0 <= t < step_pairs(c).len() implies 0 < (
    #[trigger] step_pairs(c)[t].1).len() && step_pairs(c)[t].1.len() == chunk_ends(c)[t] - (if t
        == 0 {
        0int
    } else {
        chunk_ends(c)[t - 1]
    }) && chunk_ends(c)[t] <= c.len() by {
        lemma_step_pair_at(c, t);
    }
}

/// Feeds every chunk of one corpus snapshot to the tracker, in order,
/// keeping all counters within the machine word.
#[verifier::rlimit(100)]
fn process_step(
    tracker: &mut DeduplicationTracker,
    corpus: &Vec<u8>,
    Ghost(k): Ghost<int>,
    Ghost(n): Ghost<int>,
    Ghost(trl): Ghost<nat>,
    Ghost(hist): Ghost<Seq<(u32, Seq<u8>)>>,
)
    requires
        old(tracker).wf(),
        old(tracker).model() == tm_fold(tm_init(), hist),
        old(tracker).model().refs <= old(tracker).model().total,
        old(tracker).model().stored_bytes <= old(tracker).model().total,
        old(tracker).model().total <= k * trl,
        corpus@.len() <= trl,
        0 <= k < n,
        5 * (n * trl) <= usize::MAX,
    ensures
        final(tracker).wf(),
        final(tracker).model() == tm_fold(tm_init(), hist + step_pairs(corpus@)),
        final(tracker).model().refs <= final(tracker).model().total,
        final(tracker).model().stored_bytes <= final(tracker).model().total,
        final(tracker).model().total <= (k + 1) * trl,
        4 * final(tracker).model().refs + final(tracker).model().stored_bytes <= usize::MAX,
{
    let cs = chunks(corpus.as_slice());
    let ghost pairs = step_pairs(corpus@);
    let ghost ends = chunk_ends(corpus@);
    let ghost base = tracker.model();
    proof {
        lemma_step_pairs_facts(corpus@);
        assert forall|t: int| 0 <= t < cs@.len() implies (#[trigger] cs@[t]).hash == pairs[t].0
            && cs@[t].bytes@ == pairs[t].1 by {
            assert(pairs[t].0 == chunk_spans(corpus@)[t].0);
            assert(pairs[t].1 == corpus@.subrange(
                chunk_spans(corpus@)[t].1,
                chunk_spans(corpus@)[t].2,
            ));
        }
        assert(hist + pairs.take(0) =~= hist);
        assert(tracker.model() == tm_fold(tm_init(), hist + pairs.take(0)));
    }
    let mut j: usize = 0;
    while j < cs.len()
        invariant
            5 * (n * trl) <= usize::MAX,
            0 <= k < n,
            corpus@.len() <= trl,
            pairs == step_pairs(corpus@),
            cs@.len() == pairs.len(),
            ends.len() == pairs.len(),
            forall|t: int|
                0 <= t < cs@.len() ==> (#[trigger] cs@[t]).hash == pairs[t].0 && cs@[t].bytes@
                    == pairs[t].1,
            forall|t: int|
                0 <= t < pairs.len() ==> 0 < (#[trigger] pairs[t].1).len() && pairs[t].1.len()
                    == ends[t] - (if t == 0 {
                    0int
                } else {
                    ends[t - 1]
                }) && ends[t] <= corpus@.len(),
            0 <= j <= cs@.len(),
            tracker.wf(),
            tracker.model() == tm_fold(tm_init(), hist + pairs.take(j as int)),
            tracker.model().refs <= tracker.model().total,
            tracker.model().stored_bytes <= tracker.model().total,
            base.total <= k * trl,
            j == 0 ==> tracker.model().total == base.total,
            j > 0 ==> tracker.model().total == base.total + ends[j - 1],
        decreases cs@.len() - j,
    {
        let c = &cs[j];
        proof {
            // Headroom for the counter updates of this chunk.
            let len = c.bytes@.len() as int;
            assert(tracker.model().total + len == base.total + ends[j as int]);
            lemma_step_headroom(
                tracker.model(),
                base.total,
                k,
                n,
                trl,
                ends[j as int],
                len,
            );
        }
        tracker.process_chunk(c.hash, &c.bytes);
        proof {
            let taken = pairs.take(j + 1);
            assert(taken.drop_last() =~= pairs.take(j as int));
            assert(taken.last() == pairs[j as int]);
            let whole = hist + taken;
            assert(whole.drop_last() =~= hist + pairs.take(j as int));
            assert(whole.last() == pairs[j as int]);
            assert(tm_fold(tm_init(), whole) == tm_step(
                tm_fold(tm_init(), hist + pairs.take(j as int)),
                pairs[j as int].0,
                pairs[j as int].1,
            ));
            assert(tracker.model() == tm_fold(tm_init(), hist + pairs.take(j + 1)));
        }
        j = j + 1;
    }
    proof {
        assert(pairs.take(cs@.len() as int) =~= pairs);
        // Restore the per-step total bound.
        assert(tracker.model().total <= k * trl + trl);
        lemma_estimate_headroom(tracker.model(), k, n, trl);
    }
}

/// Runs the whole simulation: computes the activation order, then for each
/// step activates one more record, re-chunks the active corpus, feeds every
/// chunk to the cumulative tracker, and emits one report row.  The report is
/// a function of the input lines alone (see `rows_match`).
#[verifier::rlimit(100)]
pub fn run_simulation(lines: &Vec<Vec<u8>>) -> (rows: Vec<ReportRow>)
    requires
        5 * (lines@.len() * total_raw_len(lines_view(lines@))) <= usize::MAX,
    ensures
        rows_match(lines_view(lines@), rows@),
{
    let ghost lv = lines_view(lines@);
    let ghost trl = total_raw_len(lv);
    let order = activation_order(lines);
    let ghost ord = order@;
    let n = lines.len();
    let mut records: Vec<Record> = Vec::new();
    let mut i: usize = 0;
    while i < n
        invariant
            lv == lines_view(lines@),
            n == lines@.len(),
            0 <= i <= n,
            records@.len() == i,
            forall|t: int| 0 <= t < i ==> (#[trigger] records@[t]).text@ == lv[t],
            forall|t: int| 0 <= t < i ==> !(#[trigger] records@[t]).active,
        decreases n - i,
    {
        let text = copy_bytes(&lines[i]);
        records.push(Record { text, active: false });
        i = i + 1;
    }
    let mut tracker = DeduplicationTracker::new();
    let mut rows: Vec<ReportRow> = Vec::new();
    let mut k: usize = 0;
    proof {
        assert(history_upto(lv, ord, 0) =~= Seq::<(u32, Seq<u8>)>::empty());
        assert(tracker.model() == tm_fold(tm_init(), history_upto(lv, ord, 0)));
        assert forall|t: int| 0 <= t < n implies (#[trigger] records@[t]).active == active_after(
            ord,
            0,
        ).contains(t) by {
            assert(!active_after(ord, 0).contains(t));
        }
    }
    while k < n
        invariant
            lv == lines_view(lines@),
            n == lines@.len(),
            5 * (n * trl) <= usize::MAX,
            trl == total_raw_len(lv),
            ord == order@,
            is_activation_order(lv, ord),
            ord == the_order(lv),
            0 <= k <= n,
            records@.len() == n,
            forall|t: int| 0 <= t < n ==> (#[trigger] records@[t]).text@ == lv[t],
            forall|t: int|
                0 <= t < n ==> (#[trigger] records@[t]).active == active_after(
                    ord,
                    k as int,
                ).contains(t),
            tracker.wf(),
            tracker.model() == tm_fold(tm_init(), history_upto(lv, ord, k as int)),
            tracker.model().refs <= tracker.model().total,
            tracker.model().stored_bytes <= tracker.model().total,
            tracker.model().total <= (k as nat) * trl,
            rows@.len() == k,
            forall|t: int| 0 <= t < k ==> row_matches(lv, ord, t, #[trigger] rows@[t]),
        decreases n - k,
    {
        let idx = order[k];
        proof {
            assert(ord[k as int] == idx);
            assert(idx < n);
        }
        let text = copy_bytes(&records[idx].text);
        let ghost old_records = records@;
        records[idx] = Record { text, active: true };
        proof {
            assert(records@ == old_records.update(idx as int, records@[idx as int]));
            assert(records@[idx as int].text@ == lv[idx as int]);
            assert(records@[idx as int].active);
            assert forall|t: int| 0 <= t < n implies (#[trigger] records@[t]).active
                == active_after(ord, k + 1).contains(t) by {
                if t == idx as int {
                    assert(0 <= k < k + 1 && ord[k as int] as int == t);
                    assert(active_after(ord, k + 1).contains(t));
                } else {
                    assert(records@[t] == old_records[t]);
                    if active_after(ord, k as int).contains(t) {
                        let j = choose|j: int|
                            0 <= j < k && (#[trigger] ord[j]) as int == t;
                        assert(active_after(ord, k + 1).contains(t));
                    }
                    if active_after(ord, k + 1).contains(t) {
                        let j = choose|j: int|
                            0 <= j < k + 1 && (#[trigger] ord[j]) as int == t;
                        assert(j != k);
                        assert(active_after(ord, k as int).contains(t));
                    }
                }
            }
        }
        let corpus = build_corpus(&records);
        proof {
            lemma_corpus_of_sel(records@, lv, active_after(ord, k + 1));
            assert(corpus@ == corpus_at(lv, ord, k + 1));
            lemma_corpus_sel_bound(lv, active_after(ord, k + 1));
            assert(corpus@.len() <= trl);
        }
        process_step(
            &mut tracker,
            &corpus,
            Ghost(k as int),
            Ghost(n as int),
            Ghost(trl),
            Ghost(history_upto(lv, ord, k as int)),
        );
        proof {
            assert(history_upto(lv, ord, k + 1) == history_upto(lv, ord, k as int) + step_pairs(
                corpus@,
            ));
            assert(tracker.model() == tm_fold(tm_init(), history_upto(lv, ord, k + 1)));
        }
        let text_len = corpus.len();
        let bytes_estimate = tracker.bytes_estimate();
        let total_bytes = tracker.total_bytes();
        let unique_chunks = tracker.unique_count();
        let collisions = tracker.collisions();
        let row = ReportRow { step: k + 1, text_len, bytes_estimate, total_bytes, unique_chunks, collisions };
        proof {
            assert(row_matches(lv, ord, k as int, row));
        }
        rows.push(row);
        k = k + 1;
    }
    proof {
        assert(rows_match(lv, rows@));
    }
    rows
}

} // verus!
