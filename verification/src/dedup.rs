//! Cumulative deduplication bookkeeping: a content-addressed store of unique
//! chunk bytes, the set of distinct boundary hashes, and running counters.

use vstd::prelude::*;
use vstd::seq_lib::seq_to_set_is_finite;
use vstd::set_lib::lemma_len_subset;

verus! {

/// The mathematical state of the tracker: the exact counters and sets that
/// the executable fields realize.
#[verifier::ext_equal]
pub struct TrackerModel {
    /// Chunks ever processed, novel or not.
    pub refs: nat,
    /// Bytes ever processed, summed over all chunks.
    pub total: nat,
    /// The distinct chunk byte-contents ever seen.
    pub stored: Set<Seq<u8>>,
    /// Bytes summed only over chunks whose content was new when processed.
    pub stored_bytes: nat,
    /// The distinct boundary-hash values ever seen.
    pub hashes: Set<u32>,
}

/// The model of a fresh tracker.
pub open spec fn tm_init() -> TrackerModel {
    TrackerModel {
        refs: 0,
        total: 0,
        stored: Set::empty(),
        stored_bytes: 0,
        hashes: Set::empty(),
    }
}

/// How processing one `(hash, content)` chunk changes the model.
pub open spec fn tm_step(m: TrackerModel, hash: u32, content: Seq<u8>) -> TrackerModel {
    TrackerModel {
        refs: m.refs + 1,
        total: m.total + content.len(),
        stored: m.stored.insert(content),
        stored_bytes: if m.stored.contains(content) {
            m.stored_bytes
        } else {
            m.stored_bytes + content.len()
        },
        hashes: m.hashes.insert(hash),
    }
}

/// Processing a whole sequence of chunks, in order.
pub open spec fn tm_fold(m: TrackerModel, pairs: Seq<(u32, Seq<u8>)>) -> TrackerModel
    decreases pairs.len(),
{
    if pairs.len() == 0 {
        m
    } else {
        tm_step(tm_fold(m, pairs.drop_last()), pairs.last().0, pairs.last().1)
    }
}

/// The distinct contents of a chunk sequence.
pub open spec fn contents_of(pairs: Seq<(u32, Seq<u8>)>) -> Set<Seq<u8>> {
    pairs.map_values(|p: (u32, Seq<u8>)| p.1).to_set()
}

/// The distinct hash values of a chunk sequence.
pub open spec fn hashes_of(pairs: Seq<(u32, Seq<u8>)>) -> Set<u32> {
    pairs.map_values(|p: (u32, Seq<u8>)| p.0).to_set()
}

/// Tracks, across the whole simulation run, which chunk contents and which
/// boundary-hash values have been seen, and the cumulative counters derived
/// from them.
pub struct DeduplicationTracker {
    unique_chunks: Vec<Vec<u8>>,
    hash_values: Vec<u32>,
    refs: usize,
    total: usize,
    stored_bytes: usize,
}

impl DeduplicationTracker {
    /// The distinct chunk contents held in the store.
    pub closed spec fn stored_set(&self) -> Set<Seq<u8>> {
        self.unique_chunks@.map_values(|v: Vec<u8>| v@).to_set()
    }

    /// The distinct boundary hashes seen.
    pub closed spec fn hash_set(&self) -> Set<u32> {
        self.hash_values@.to_set()
    }

    /// The mathematical state that the fields realize.
    pub closed spec fn model(&self) -> TrackerModel {
        TrackerModel {
            refs: self.refs as nat,
            total: self.total as nat,
            stored: self.stored_set(),
            stored_bytes: self.stored_bytes as nat,
            hashes: self.hash_set(),
        }
    }

    /// Well-formed: both stores are duplicate-free, so their lengths are the
    /// cardinalities of the model's sets.
    pub closed spec fn wf(&self) -> bool {
        &&& self.unique_chunks@.map_values(|v: Vec<u8>| v@).no_duplicates()
        &&& self.hash_values@.no_duplicates()
    }

    pub fn new() -> (r: Self)
        ensures
            r.wf(),
            r.model() == tm_init(),
    {
        let r = DeduplicationTracker {
            unique_chunks: Vec::new(),
            hash_values: Vec::new(),
            refs: 0,
            total: 0,
            stored_bytes: 0,
        };
        proof {
            assert(r.unique_chunks@.map_values(|v: Vec<u8>| v@) =~= Seq::<Seq<u8>>::empty());
            assert(r.stored_set() =~= Set::<Seq<u8>>::empty());
            assert(r.hash_set() =~= Set::<u32>::empty());
            assert(r.model() =~= tm_init());
        }
        r
    }

    /// Whether this exact byte content is already in the unique-chunk store.
    fn contains_chunk(&self, bytes: &Vec<u8>) -> (r: bool)
        ensures
            r == self.stored_set().contains(bytes@),
    {
        let ghost views = self.unique_chunks@.map_values(|v: Vec<u8>| v@);
        let mut j: usize = 0;
        while j < self.unique_chunks.len()
            invariant
                0 <= j <= self.unique_chunks@.len(),
                views == self.unique_chunks@.map_values(|v: Vec<u8>| v@),
                forall|k: int| 0 <= k < j ==> views[k] != bytes@,
            decreases self.unique_chunks@.len() - j,
        {
            if bytes_equal(&self.unique_chunks[j], bytes) {
                proof {
                    assert(views[j as int] == bytes@);
                    assert(views.contains(bytes@));
                }
                return true;
            }
            j = j + 1;
        }
        proof {
            assert(forall|k: int| 0 <= k < views.len() ==> views[k] != bytes@);
            assert(!views.contains(bytes@));
        }
        false
    }

    /// Whether this boundary-hash value has been seen before.
    fn contains_hash(&self, hash: u32) -> (r: bool)
        ensures
            r == self.hash_set().contains(hash),
    {
        let mut j: usize = 0;
        while j < self.hash_values.len()
            invariant
                0 <= j <= self.hash_values@.len(),
                forall|k: int| 0 <= k < j ==> self.hash_values@[k] != hash,
            decreases self.hash_values@.len() - j,
        {
            if self.hash_values[j] == hash {
                proof {
                    assert(self.hash_values@.contains(hash));
                }
                return true;
            }
            j = j + 1;
        }
        proof {
            assert(!self.hash_values@.contains(hash));
        }
        false
    }

    /// Records one chunk: counts it, adds its bytes to the cumulative total,
    /// and stores its content and hash if they were not seen before.
    pub fn process_chunk(&mut self, hash: u32, bytes: &Vec<u8>)
        requires
            old(self).wf(),
            old(self).model().refs + 1 <= usize::MAX,
            old(self).model().total + bytes@.len() <= usize::MAX,
            old(self).model().stored_bytes + bytes@.len() <= usize::MAX,
        ensures
            final(self).wf(),
            final(self).model() == tm_step(old(self).model(), hash, bytes@),
    {
        let ghost old_views = self.unique_chunks@.map_values(|v: Vec<u8>| v@);
        self.refs = self.refs + 1;
        self.total = self.total + bytes.len();
        let new_chunk = !self.contains_chunk(bytes);
        let new_hash = !self.contains_hash(hash);
        if new_chunk {
            self.stored_bytes = self.stored_bytes + bytes.len();
            let mut copy: Vec<u8> = Vec::new();
            let mut j: usize = 0;
            while j < bytes.len()
                invariant
                    0 <= j <= bytes@.len(),
                    copy@ == bytes@.subrange(0, j as int),
                decreases bytes@.len() - j,
            {
                copy.push(bytes[j]);
                proof {
                    assert(copy@ =~= bytes@.subrange(0, j + 1));
                }
                j = j + 1;
            }
            proof {
                assert(copy@ =~= bytes@);
            }
            self.unique_chunks.push(copy);
            proof {
                let views = self.unique_chunks@.map_values(|v: Vec<u8>| v@);
                assert(views =~= old_views.push(bytes@));
                assert(!old_views.contains(bytes@));
                assert(views.no_duplicates());
                old_views.lemma_push_to_set_commute(bytes@);
                assert(views.to_set() =~= old_views.to_set().insert(bytes@));
            }
        } else {
            proof {
                assert(self.stored_set() =~= self.stored_set().insert(bytes@));
            }
        }
        if new_hash {
            let ghost old_hashes = self.hash_values@;
            self.hash_values.push(hash);
            proof {
                assert(self.hash_values@ =~= old_hashes.push(hash));
                assert(self.hash_values@.no_duplicates());
                old_hashes.lemma_push_to_set_commute(hash);
                assert(self.hash_values@.to_set() =~= old_hashes.to_set().insert(hash));
            }
        } else {
            proof {
                assert(self.hash_set() =~= self.hash_set().insert(hash));
            }
        }
        proof {
            assert(self.model() =~= tm_step(old(self).model(), hash, bytes@));
        }
    }

    /// How many chunks were ever processed.
    pub fn chunk_refs(&self) -> (r: usize)
        ensures
            r as nat == self.model().refs,
    {
        self.refs
    }

    /// How many bytes were ever processed, novel or not.
    pub fn total_bytes(&self) -> (r: usize)
        ensures
            r as nat == self.model().total,
    {
        self.total
    }

    /// How many bytes the unique-chunk store holds.
    pub fn chunks_bytes(&self) -> (r: usize)
        ensures
            r as nat == self.model().stored_bytes,
    {
        self.stored_bytes
    }

    /// How many distinct chunk contents were ever seen.
    pub fn unique_count(&self) -> (r: usize)
        requires
            self.wf(),
        ensures
            r as nat == self.model().stored.len(),
    {
        proof {
            self.unique_chunks@.map_values(|v: Vec<u8>| v@).unique_seq_to_set();
        }
        self.unique_chunks.len()
    }

    /// How many distinct boundary-hash values were ever seen.
    pub fn hash_count(&self) -> (r: usize)
        requires
            self.wf(),
        ensures
            r as nat == self.model().hashes.len(),
    {
        proof {
            self.hash_values@.unique_seq_to_set();
        }
        self.hash_values.len()
    }

    /// The reported collision count: distinct contents minus distinct hashes
    /// (zero if the hashes outnumber the contents, which only happens when
    /// one content recurs under several boundary hashes).
    pub fn collisions(&self) -> (r: usize)
        requires
            self.wf(),
        ensures
            r as nat == if self.model().stored.len() >= self.model().hashes.len() {
                self.model().stored.len() - self.model().hashes.len()
            } else {
                0
            },
    {
        let u = self.unique_count();
        let h = self.hash_count();
        if u >= h {
            u - h
        } else {
            0
        }
    }

    /// The deduplicated storage estimate: four bytes per chunk reference plus
    /// the bytes stored once in the unique-chunk store.
    pub fn bytes_estimate(&self) -> (r: usize)
        requires
            4 * self.model().refs + self.model().stored_bytes <= usize::MAX,
        ensures
            r as nat == 4 * self.model().refs + self.model().stored_bytes,
    {
        4 * self.refs + self.stored_bytes
    }
}

/// Exact byte-for-byte equality of two byte vectors.
pub fn bytes_equal(a: &Vec<u8>, b: &Vec<u8>) -> (r: bool)
    ensures
        r == (a@ == b@),
{
    if a.len() != b.len() {
        return false;
    }
    let mut j: usize = 0;
    while j < a.len()
        invariant
            a@.len() == b@.len(),
            0 <= j <= a@.len(),
            forall|k: int| 0 <= k < j ==> a@[k] == b@[k],
        decreases a@.len() - j,
    {
        if a[j] != b[j] {
            return false;
        }
        j = j + 1;
    }
    proof {
        assert(a@ =~= b@);
    }
    true
}

/// Monotonic accounting: processing more chunks never shrinks anything.
/// Every counter grows or stays, and both sets only gain members.
pub proof fn lemma_tm_fold_monotonic(m: TrackerModel, pairs: Seq<(u32, Seq<u8>)>)
    ensures
        tm_fold(m, pairs).refs >= m.refs,
        tm_fold(m, pairs).total >= m.total,
        tm_fold(m, pairs).stored_bytes >= m.stored_bytes,
        m.stored.subset_of(tm_fold(m, pairs).stored),
        m.hashes.subset_of(tm_fold(m, pairs).hashes),
    decreases pairs.len(),
{
    if pairs.len() == 0 {
    } else {
        lemma_tm_fold_monotonic(m, pairs.drop_last());
    }
}

/// Cardinalities of a folded model: growing sets have growing sizes.
pub proof fn lemma_tm_fold_len_monotonic(m: TrackerModel, pairs: Seq<(u32, Seq<u8>)>)
    requires
        m.stored.finite(),
        m.hashes.finite(),
    ensures
        tm_fold(m, pairs).stored.finite(),
        tm_fold(m, pairs).hashes.finite(),
        tm_fold(m, pairs).stored.len() >= m.stored.len(),
        tm_fold(m, pairs).hashes.len() >= m.hashes.len(),
    decreases pairs.len(),
{
    if pairs.len() == 0 {
    } else {
        lemma_tm_fold_len_monotonic(m, pairs.drop_last());
        lemma_len_subset(
            tm_fold(m, pairs.drop_last()).stored,
            tm_fold(m, pairs).stored,
        );
        lemma_len_subset(
            tm_fold(m, pairs.drop_last()).hashes,
            tm_fold(m, pairs).hashes,
        );
    }
}

/// A model folded up from the initial state has finite sets.
pub proof fn lemma_tm_fold_init_finite(pairs: Seq<(u32, Seq<u8>)>)
    ensures
        tm_fold(tm_init(), pairs).stored.finite(),
        tm_fold(tm_init(), pairs).hashes.finite(),
{
    broadcast use seq_to_set_is_finite;

    lemma_tm_fold_sets(pairs);
}

/// A fold from the initial model collects exactly the contents and hashes of
/// the processed chunks.
proof fn lemma_tm_fold_sets(pairs: Seq<(u32, Seq<u8>)>)
    ensures
        tm_fold(tm_init(), pairs).stored =~= contents_of(pairs),
        tm_fold(tm_init(), pairs).hashes =~= hashes_of(pairs),
    decreases pairs.len(),
{
    if pairs.len() == 0 {
        assert(pairs.map_values(|p: (u32, Seq<u8>)| p.1) =~= Seq::<Seq<u8>>::empty());
        assert(pairs.map_values(|p: (u32, Seq<u8>)| p.0) =~= Seq::<u32>::empty());
        assert(contents_of(pairs) =~= Set::<Seq<u8>>::empty());
        assert(hashes_of(pairs) =~= Set::<u32>::empty());
    } else {
        let q = pairs.drop_last();
        lemma_tm_fold_sets(q);
        assert(pairs.map_values(|p: (u32, Seq<u8>)| p.1) =~= q.map_values(
            |p: (u32, Seq<u8>)| p.1,
        ).push(pairs.last().1));
        assert(pairs.map_values(|p: (u32, Seq<u8>)| p.0) =~= q.map_values(
            |p: (u32, Seq<u8>)| p.0,
        ).push(pairs.last().0));
        q.map_values(|p: (u32, Seq<u8>)| p.1).lemma_push_to_set_commute(pairs.last().1);
        q.map_values(|p: (u32, Seq<u8>)| p.0).lemma_push_to_set_commute(pairs.last().0);
        assert(contents_of(pairs) =~= contents_of(q).insert(pairs.last().1));
        assert(hashes_of(pairs) =~= hashes_of(q).insert(pairs.last().0));
    }
}

/// Dedup-count invariant: as long as a chunk's boundary hash is a function
/// of its content within the run (equal contents always arrive with equal
/// hashes), the tracker can never have seen more distinct hashes than
/// distinct contents, so the reported collision count never underflows.
pub proof fn lemma_collision_bound(pairs: Seq<(u32, Seq<u8>)>)
    requires
        forall|j: int, k: int|
            0 <= j < pairs.len() && 0 <= k < pairs.len() && (#[trigger] pairs[j]).1 == (
            #[trigger] pairs[k]).1 ==> pairs[j].0 == pairs[k].0,
    ensures
        tm_fold(tm_init(), pairs).hashes.len() <= tm_fold(tm_init(), pairs).stored.len(),
    decreases pairs.len(),
{
    broadcast use seq_to_set_is_finite;

    lemma_tm_fold_sets(pairs);
    if pairs.len() == 0 {
    } else {
        let q = pairs.drop_last();
        let hv = pairs.last().0;
        let c = pairs.last().1;
        assert(forall|j: int| 0 <= j < q.len() ==> q[j] == pairs[j]);
        lemma_collision_bound(q);
        lemma_tm_fold_sets(q);
        let qc = contents_of(q);
        let qh = hashes_of(q);
        assert(qc.finite());
        assert(qh.finite());
        if qc.contains(c) {
            let cviews = q.map_values(|p: (u32, Seq<u8>)| p.1);
            assert(cviews.contains(c));
            let j = choose|j: int| 0 <= j < cviews.len() && cviews[j] == c;
            assert(q[j].1 == c);
            assert(pairs[j] == q[j]);
            assert(pairs[pairs.len() - 1].1 == c);
            assert(pairs[j].0 == hv);
            let hviews = q.map_values(|p: (u32, Seq<u8>)| p.0);
            assert(hviews[j] == hv);
            assert(hviews.contains(hv));
            assert(qh.contains(hv));
            assert(qc.insert(c) =~= qc);
            assert(qh.insert(hv) =~= qh);
        } else {
            assert(qc.insert(c).len() == qc.len() + 1);
            assert(qh.insert(hv).len() <= qh.len() + 1);
        }
    }
}

} // verus!
