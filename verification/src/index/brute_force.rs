//! The exact index: a linear scan over all vectors.
use vstd::prelude::*;

use crate::distance::{less32, rank32, Metric};
use crate::error::{ErrorView, QuiverError};
use crate::index::beam::{candidate, lists_node};
use crate::index::exact::{all_candidates, all_numbers, listed_or_not_nearer, nearest,
    nearest_is_exact};
use crate::index::kernel::{distance, is_kernel, measure};
use crate::index::ranking::{closest, is_ranked, offer_closest, Candidate};
use crate::index::SearchResult;
use crate::metadata_encoding::len_field;
use crate::storage::vecstore::{inserts, StoreView, VectorStore};

verus! {

/// The distances of all vectors from a query.
pub open spec fn flat_distances<K: Fn(&[u32], &[u32]) -> u32>(
    kernel: K,
    query: Seq<u32>,
    vectors: Seq<Seq<u32>>,
) -> Seq<u32> {
    Seq::new(vectors.len(), |i: int| distance(kernel, query, vectors[i]))
}

/// Slots as search results.
pub open spec fn slot_results(ids: Seq<u64>, found: Seq<Candidate>) -> Seq<SearchResult> {
    Seq::new(
        found.len(),
        |i: int|
            SearchResult {
                slot: found[i].node_idx,
                vector_id: ids[found[i].node_idx as int],
                distance: found[i].distance,
            },
    )
}

/// An index that finds the exact nearest neighbors.
#[derive(Debug)]
pub struct BruteForceIndex {
    store: VectorStore,
}

impl View for BruteForceIndex {
    type V = StoreView;

    closed spec fn view(&self) -> StoreView {
        self.store@
    }
}

impl BruteForceIndex {
    /// The store is well formed.
    pub open spec fn wf(&self) -> bool {
        self@.wf()
    }

    /// The vectors of the index.
    pub closed spec fn spec_store(&self) -> VectorStore {
        self.store
    }

    /// A new, empty index.
    pub fn create(dimension: u32, metric: Metric) -> (index: Self)
        ensures
            index.wf(),
            index@ == StoreView::empty(dimension, metric),
            index.spec_store()@ == index@,
            index.spec_store().pending() == Seq::<u8>::empty(),
    {
        Self { store: VectorStore::create(dimension, metric) }
    }

    /// The index over a store that was opened.
    pub fn open(store: VectorStore) -> (index: Self)
        requires
            store.wf(),
        ensures
            index.wf(),
            index@ == store@,
            index.spec_store() == store,
    {
        Self { store }
    }

    /// Adds a vector, and returns the ID it was given.
    pub fn insert(&mut self, vector: &[u32]) -> (result: Result<u64, QuiverError>)
        requires
            old(self).wf(),
            old(self)@.header.max_vector_id < u64::MAX,
        ensures
            final(self).wf(),
            inserts(&old(self).spec_store(), &final(self).spec_store(), vector@, None, result),
            old(self).spec_store()@ == old(self)@,
            final(self).spec_store()@ == final(self)@,
    {
        self.store.insert(vector)
    }

    /// Finds the `k` nearest neighbors of a query, the nearest first.
    pub fn search<K: Fn(&[u32], &[u32]) -> u32>(&self, kernel: &K, query: &[u32], k: usize) -> (
    result: Result<Vec<SearchResult>, QuiverError>)
        requires
            self.wf(),
            is_kernel(*kernel, self@.header.dimension),
        ensures
            match result {
                Ok(list) => {
                    &&& query@.len() == self@.header.dimension
                    &&& self@.ids.len() > 0
                    &&& list@ == slot_results(
                        self@.ids,
                        nearest(flat_distances(*kernel, query@, self@.vectors), k as nat),
                    )
                    &&& forall|i: int|
                        0 <= i < list@.len() ==> {
                            let slot = (#[trigger] list@[i]).slot as int;
                            &&& slot < self@.ids.len()
                            &&& list@[i].vector_id == self@.ids[slot]
                            &&& list@[i].distance == distance(
                                *kernel,
                                query@,
                                self@.vectors[slot],
                            )
                        }
                },
                Err(e) => if query@.len() != self@.header.dimension {
                    e@ == (ErrorView::DimensionMismatch {
                        expected: self@.header.dimension,
                        actual: len_field(query@.len()),
                    })
                } else {
                    self@.ids.len() == 0 && e@ == ErrorView::EmptyIndex
                },
            },
    {
        if query.len() != self.store.dimension() as usize {
            return Err(QuiverError::DimensionMismatch {
                expected: self.store.dimension(),
                actual: (query.len() as u64 % 0x1_0000_0000) as u32,
            });
        }
        if self.store.is_empty() {
            return Err(QuiverError::EmptyIndex);
        }
        let ghost ds = flat_distances(*kernel, query@, self@.vectors);
        let ghost all = all_candidates(ds);
        let mut found: Vec<Candidate> = Vec::new();
        let n: usize = self.store.len();
        assert(all.take(0) =~= Seq::empty());
        for slot in 0..n
            invariant
                self.wf(),
                is_kernel(*kernel, self@.header.dimension),
                query@.len() == self@.header.dimension,
                n == self@.ids.len(),
                ds == flat_distances(*kernel, query@, self@.vectors),
                all == all_candidates(ds),
                is_ranked(found@),
                found@ == closest(all.take(slot as int), k as nat),
        {
            let c = Candidate {
                node_idx: slot,
                distance: measure(kernel, query, self.store.get_vector_unchecked(slot)),
            };
            proof {
                assert(all[slot as int] == c);
                assert(all.take(slot + 1).drop_last() =~= all.take(slot as int));
                assert(all.take(slot + 1).last() == c);
            }
            offer_closest(&mut found, c, k);
        }
        assert(all.take(n as int) =~= all);
        proof {
            nearest_is_exact(ds, k as nat);
            exact_search_is_exact(*kernel, query@, self@.ids, self@.vectors, k as nat);
        }
        Ok(self.as_results(&found))
    }

    fn as_results(&self, found: &Vec<Candidate>) -> (results: Vec<SearchResult>)
        requires
            self.wf(),
            forall|i: int|
                0 <= i < found@.len() ==> (#[trigger] found@[i]).node_idx < self@.ids.len(),
        ensures
            results@ == slot_results(self@.ids, found@),
            results@.len() == found@.len(),
            forall|i: int|
                0 <= i < found@.len() ==> {
                    &&& (#[trigger] results@[i]).slot == found@[i].node_idx
                    &&& results@[i].vector_id == self@.ids[found@[i].node_idx as int]
                    &&& results@[i].distance == found@[i].distance
                },
    {
        let mut results: Vec<SearchResult> = Vec::with_capacity(found.len());
        for i in 0..found.len()
            invariant
                self.wf(),
                forall|j: int|
                    0 <= j < found@.len() ==> (#[trigger] found@[j]).node_idx < self@.ids.len(),
                results@ =~= slot_results(self@.ids, found@).take(i as int),
        {
            let c = found[i];
            let vector_id: u64 = match self.store.vector_id(c.node_idx) {
                Ok(id) => id,
                Err(_) => 0,
            };
            results.push(SearchResult { slot: c.node_idx, vector_id, distance: c.distance });
        }
        assert(results@ =~= slot_results(self@.ids, found@));
        results
    }

    /// Number of vectors.
    pub fn len(&self) -> (n: usize)
        ensures
            n == self@.ids.len(),
    {
        self.store.len()
    }

    /// Whether there is no vector.
    pub fn is_empty(&self) -> (r: bool)
        ensures
            r == (self@.ids.len() == 0),
    {
        self.store.is_empty()
    }

    /// Number of components of each vector.
    pub fn dimension(&self) -> (d: u32)
        ensures
            d == self@.header.dimension,
    {
        self.store.dimension()
    }

    /// The distance metric.
    pub fn metric(&self) -> (m: Metric)
        ensures
            m == self@.header.metric,
    {
        self.store.metric()
    }

    /// The vectors.
    pub fn store(&self) -> (store: &VectorStore)
        ensures
            *store == self.spec_store(),
            store@ == self@,
    {
        &self.store
    }

    /// Hands out the log entries that wait, to be written behind the log and
    /// synced.
    pub fn flush_wal(&mut self) -> (bytes: Vec<u8>)
        ensures
            bytes@ == old(self).spec_store().pending(),
            final(self).spec_store().pending() == Seq::<u8>::empty(),
            final(self)@ == old(self)@,
    {
        self.store.flush_wal()
    }

    /// The vector in a slot.
    pub fn get_vector(&self, slot: usize) -> (result: Result<&[u32], QuiverError>)
        requires
            self.wf(),
        ensures
            match result {
                Ok(v) => slot < self@.vectors.len() && v@ == self@.vectors[slot as int],
                Err(e) => slot >= self@.vectors.len() && e@ == ErrorView::NotFound(slot as u64),
            },
    {
        self.store.get_vector(slot)
    }
}

/// An exact search is exact. It returns `k` vectors, or all where there are fewer,
/// each once, the nearest first; each result carries the ID that its own slot has
/// and the distance of its own vector; and no vector that is left out is nearer
/// than the last that is returned, nor, where every distance is a number, than any.
pub proof fn exact_search_is_exact<K: Fn(&[u32], &[u32]) -> u32>(
    kernel: K,
    query: Seq<u32>,
    ids: Seq<u64>,
    vectors: Seq<Seq<u32>>,
    k: nat,
)
    requires
        ids.len() == vectors.len(),
        vectors.len() <= usize::MAX,
    ensures
        ({
            let r = slot_results(ids, nearest(flat_distances(kernel, query, vectors), k));
            &&& r.len() == (if vectors.len() <= k { vectors.len() } else { k })
            &&& forall|i: int|
                0 <= i < r.len() ==> {
                    let slot = (#[trigger] r[i]).slot as int;
                    &&& slot < vectors.len()
                    &&& r[i].vector_id == ids[slot]
                    &&& r[i].distance == distance(kernel, query, vectors[slot])
                }
            &&& forall|i: int, j: int|
                0 <= i < j < r.len() ==> (#[trigger] r[i]).slot != (#[trigger] r[j]).slot && rank32(
                    r[i].distance,
                ) <= rank32(r[j].distance)
            &&& forall|slot: int|
                0 <= slot < vectors.len() && r.len() > 0 ==> (exists|i: int|
                    0 <= i < r.len() && (#[trigger] r[i]).slot == slot) || !less32(
                    distance(kernel, query, #[trigger] vectors[slot]),
                    r.last().distance,
                )
            &&& all_numbers(flat_distances(kernel, query, vectors)) ==> forall|slot: int, i: int|
                0 <= slot < vectors.len() && 0 <= i < r.len() ==> (exists|j: int|
                    0 <= j < r.len() && (#[trigger] r[j]).slot == slot) || rank32(
                    (#[trigger] r[i]).distance,
                ) <= rank32(distance(kernel, query, #[trigger] vectors[slot]))
        }),
{
    let ds = flat_distances(kernel, query, vectors);
    let found = nearest(ds, k);
    let r = slot_results(ids, found);
    nearest_is_exact(ds, k);
    assert forall|i: int| 0 <= i < r.len() implies {
        let slot = (#[trigger] r[i]).slot as int;
        &&& slot < vectors.len()
        &&& r[i].vector_id == ids[slot]
        &&& r[i].distance == distance(kernel, query, vectors[slot])
    } by {
        assert(found[i].distance == ds[found[i].node_idx as int]);
    }
    assert forall|i: int, j: int| 0 <= i < j < r.len() implies (#[trigger] r[i]).slot != (
    #[trigger] r[j]).slot && rank32(r[i].distance) <= rank32(r[j].distance) by {
        assert(found[i].node_idx != found[j].node_idx);
        assert(found[i].rank() <= found[j].rank());
    }
    assert forall|slot: int| 0 <= slot < vectors.len() && r.len() > 0 implies (exists|i: int|
        0 <= i < r.len() && (#[trigger] r[i]).slot == slot) || !less32(
        distance(kernel, query, #[trigger] vectors[slot]),
        r.last().distance,
    ) by {
        assert(listed_or_not_nearer(ds, found, k, slot));
        if lists_node(found, slot) {
            let i = choose|i: int| 0 <= i < found.len() && (#[trigger] found[i]).node_idx == slot;
            assert(r[i].slot == slot);
        }
    }
    if all_numbers(ds) {
        assert forall|slot: int, i: int| 0 <= slot < vectors.len() && 0 <= i < r.len() implies (
        exists|j: int| 0 <= j < r.len() && (#[trigger] r[j]).slot == slot) || rank32(
            (#[trigger] r[i]).distance,
        ) <= rank32(distance(kernel, query, #[trigger] vectors[slot])) by {
            assert(found[i].distance == r[i].distance);
            assert(candidate(ds, slot).distance == ds[slot]);
            if lists_node(found, slot) {
                let j = choose|j: int|
                    0 <= j < found.len() && (#[trigger] found[j]).node_idx == slot;
                assert(r[j].slot == slot);
            }
        }
    }
}

} // verus!
