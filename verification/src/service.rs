//! Search requests as a server answers them.
use vstd::prelude::*;
use vstd::string::*;

use crate::distance::rank32;
use crate::error::{ErrorView, QuiverError};
use crate::index::beam::distances;
use crate::index::guarantees::results_name_their_vectors;
use crate::index::hnsw::{filtered_results, search_results, HnswIndex, IndexView};
use crate::index::kernel::{distance, is_kernel};
use crate::index::sieve::passing;
use crate::index::visited::VisitedPool;
use crate::index::SearchResult;
use crate::metadata::{pairs_map, Filter};
use crate::metadata_encoding::len_field;

verus! {

/// Width of the beam of a request that asks for none.
pub const DEFAULT_EF_SEARCH: usize = 100;

/// A search for the nearest neighbors of a vector.
#[derive(Debug)]
pub struct SearchRequest {
    pub vector: Vec<u32>,
    pub k: usize,
    pub ef_search: Option<usize>,
    /// Only vectors whose metadata passes are found.
    pub filter: Option<Filter>,
}

impl SearchRequest {
    /// Width of the beam.
    pub open spec fn ef(&self) -> nat {
        match self.ef_search {
            Some(ef) => ef as nat,
            None => DEFAULT_EF_SEARCH as nat,
        }
    }
}

/// What a request finds.
pub open spec fn answer<K: Fn(&[u32], &[u32]) -> u32>(
    kernel: K,
    index: IndexView,
    request: &SearchRequest,
) -> Result<Seq<SearchResult>, ErrorView> {
    let ds = distances(kernel, request.vector@, index.topology.g, index.store.vectors);
    if request.vector@.len() != index.store.header.dimension {
        Err(ErrorView::DimensionMismatch {
            expected: index.store.header.dimension,
            actual: len_field(request.vector@.len()),
        })
    } else if index.topology.entry is None {
        Err(ErrorView::EmptyIndex)
    } else {
        match request.filter {
            None => Ok(search_results(index.topology, ds, request.k as nat, request.ef())),
            Some(filter) => Ok(
                filtered_results(
                    index.topology,
                    ds,
                    passing(index.topology.g, index.store.metadata, filter),
                    request.k as nat,
                    request.ef(),
                ),
            ),
        }
    }
}

/// Answers a request.
pub fn search_one<K: Fn(&[u32], &[u32]) -> u32>(
    index: &HnswIndex,
    kernel: &K,
    request: &SearchRequest,
    pool: &mut VisitedPool,
) -> (result: Result<Vec<SearchResult>, QuiverError>)
    requires
        index.wf(),
        is_kernel(*kernel, index@.store.header.dimension),
        old(pool).wf(),
    ensures
        final(pool).wf(),
        match result {
            Ok(hits) => answer(*kernel, index@, request) == Ok::<Seq<SearchResult>, ErrorView>(
                hits@,
            ),
            Err(e) => answer(*kernel, index@, request) == Err::<Seq<SearchResult>, ErrorView>(e@),
        },
{
    let ef: usize = match request.ef_search {
        Some(ef) => ef,
        None => DEFAULT_EF_SEARCH,
    };
    match &request.filter {
        Some(filter) => index.search_filtered_with(
            kernel,
            request.vector.as_slice(),
            request.k,
            ef,
            filter,
            pool,
        ),
        None => index.search_with(kernel, request.vector.as_slice(), request.k, ef, pool),
    }
}

/// Why a batch is refused before it is searched for.
pub open spec fn batch_fault(requests: Seq<SearchRequest>) -> Option<Seq<char>> {
    if requests.len() == 0 {
        Some("queries must not be empty"@)
    } else if exists|i: int| 0 <= i < requests.len() && (#[trigger] requests[i]).k < 1 {
        Some("k must be at least 1 for every query"@)
    } else {
        None
    }
}

/// Checks a batch of requests.
fn check_batch(requests: &[SearchRequest]) -> (result: Result<(), String>)
    ensures
        match result {
            Ok(_) => batch_fault(requests@) is None,
            Err(text) => batch_fault(requests@) == Some(text@),
        },
{
    if requests.len() == 0 {
        return Err("queries must not be empty".to_owned());
    }
    for i in 0..requests.len()
        invariant
            forall|j: int| 0 <= j < i ==> (#[trigger] requests@[j]).k >= 1,
    {
        if requests[i].k < 1 {
            assert(requests@[i as int].k < 1);
            return Err("k must be at least 1 for every query".to_owned());
        }
    }
    Ok(())
}

/// Answers a batch of requests, one after the other. The batch fails as a whole,
/// with the wording of the first fault.
pub fn search_batch<K: Fn(&[u32], &[u32]) -> u32>(
    index: &HnswIndex,
    kernel: &K,
    requests: &[SearchRequest],
    pool: &mut VisitedPool,
) -> (result: Result<Vec<Vec<SearchResult>>, String>)
    requires
        index.wf(),
        is_kernel(*kernel, index@.store.header.dimension),
        old(pool).wf(),
    ensures
        final(pool).wf(),
        match batch_fault(requests@) {
            Some(text) => result matches Err(t) && t@ == text,
            None => match result {
                Ok(lists) => {
                    &&& lists@.len() == requests@.len()
                    &&& forall|i: int|
                        0 <= i < requests@.len() ==> answer(
                            *kernel,
                            index@,
                            #[trigger] &requests@[i],
                        ) == Ok::<Seq<SearchResult>, ErrorView>(lists@[i]@)
                },
                Err(text) => fails_with(*kernel, index@, requests@, text@),
            },
        },
{
    match check_batch(requests) {
        Err(text) => return Err(text),
        Ok(_) => {},
    }
    let mut lists: Vec<Vec<SearchResult>> = Vec::with_capacity(requests.len());
    for i in 0..requests.len()
        invariant
            index.wf(),
            is_kernel(*kernel, index@.store.header.dimension),
            pool.wf(),
            batch_fault(requests@) is None,
            lists@.len() == i,
            forall|j: int|
                0 <= j < i ==> answer(*kernel, index@, #[trigger] &requests@[j]) == Ok::<
                    Seq<SearchResult>,
                    ErrorView,
                >(lists@[j]@),
    {
        match search_one(index, kernel, &requests[i], pool) {
            Ok(hits) => {
                lists.push(hits);
            },
            Err(e) => {
                let text = e.message();
                proof {
                    let fault = answer(*kernel, index@, &requests@[i as int]);
                    assert(fault == Err::<Seq<SearchResult>, ErrorView>(e@));
                    assert(is_first_fault(*kernel, index@, requests@, i as int, text@));
                    assert(fails_with(*kernel, index@, requests@, text@));
                }
                return Err(text);
            },
        }
    }
    Ok(lists)
}

/// Whether a batch fails with the wording of the first request that does.
pub open spec fn fails_with<K: Fn(&[u32], &[u32]) -> u32>(
    kernel: K,
    index: IndexView,
    requests: Seq<SearchRequest>,
    text: Seq<char>,
) -> bool {
    exists|i: int|
        0 <= i < requests.len() && #[trigger] is_first_fault(kernel, index, requests, i, text)
}

/// Whether request `i` is the first of a batch that fails, with this wording.
pub open spec fn is_first_fault<K: Fn(&[u32], &[u32]) -> u32>(
    kernel: K,
    index: IndexView,
    requests: Seq<SearchRequest>,
    i: int,
    text: Seq<char>,
) -> bool {
    &&& answer(kernel, index, &requests[i]) matches Err(e) && text == e.sentence()
    &&& forall|j: int| 0 <= j < i ==> answer(kernel, index, #[trigger] &requests[j]) is Ok
}

/// A batch is refused before it is searched for if and only if it is empty or asks
/// for less than one neighbor somewhere.
pub proof fn batches_are_refused_for_cause(requests: Seq<SearchRequest>)
    ensures
        batch_fault(requests) is None <==> requests.len() > 0 && forall|i: int|
            0 <= i < requests.len() ==> (#[trigger] requests[i]).k >= 1,
        batch_fault(requests) matches Some(text) ==> if requests.len() == 0 {
            text == "queries must not be empty"@
        } else {
            text == "k must be at least 1 for every query"@
        },
{
}

/// A request is answered if and only if its vector has the dimension of the index
/// and the index has a vector. Each hit is a live vector of the store with its own
/// ID and its own distance, at most as many as were asked for, each once, the
/// nearest first; under a filter, the metadata of each passes. Where no beam is
/// asked for its width is 100.
pub proof fn answers_are_sound<K: Fn(&[u32], &[u32]) -> u32>(
    kernel: K,
    index: &HnswIndex,
    request: &SearchRequest,
)
    requires
        index.wf(),
    ensures
        request.ef_search is None ==> request.ef() == 100,
        request.ef_search matches Some(ef) ==> request.ef() == ef,
        answer(kernel, index@, request) is Ok <==> request.vector@.len()
            == index@.store.header.dimension && index@.store.ids.len() > 0,
        answer(kernel, index@, request) matches Err(e) ==> if request.vector@.len()
            != index@.store.header.dimension {
            e == (ErrorView::DimensionMismatch {
                expected: index@.store.header.dimension,
                actual: (request.vector@.len() % 0x1_0000_0000) as u32,
            })
        } else {
            e is EmptyIndex
        },
        answer(kernel, index@, request) matches Ok(r) ==> {
            let s = index@.store;
            &&& r.len() <= request.k
            &&& forall|i: int|
                0 <= i < r.len() ==> {
                    let slot = (#[trigger] r[i]).slot as int;
                    &&& slot < s.ids.len()
                    &&& r[i].vector_id == s.ids[slot]
                    &&& r[i].distance == distance(kernel, request.vector@, s.vectors[slot])
                    &&& !index@.topology.g[slot].deleted
                    &&& request.filter matches Some(filter) ==> s.metadata[slot] is Some
                        && filter.holds(pairs_map(s.metadata[slot]->0))
                }
            &&& forall|i: int, j: int|
                0 <= i < j < r.len() ==> (#[trigger] r[i]).slot != (#[trigger] r[j]).slot && rank32(
                    r[i].distance,
                ) <= rank32(r[j].distance)
        },
        answer(kernel, index@, request) matches Ok(r) ==> {
            let t = index@.topology;
            let ds = distances(kernel, request.vector@, t.g, index@.store.vectors);
            match request.filter {
                None => r == search_results(t, ds, request.k as nat, request.ef()),
                Some(filter) => r == filtered_results(
                    t,
                    ds,
                    passing(t.g, index@.store.metadata, filter),
                    request.k as nat,
                    request.ef(),
                ),
            }
        },
{
    index.wf_facts();
    let filter = match request.filter {
        Some(filter) => filter,
        None => Filter::And(arbitrary()),
    };
    if index@.topology.entry is Some {
        results_name_their_vectors(
            kernel,
            request.vector@,
            index@,
            filter,
            request.k as nat,
            request.ef(),
        );
    }
}

} // verus!
