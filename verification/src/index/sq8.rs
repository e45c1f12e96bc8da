//! The compressed index: a linear scan over vectors of one byte per component.
//!
//! The index is built in one go, since other ranges would need other codes.
use vstd::prelude::*;
use vstd::slice::slice_subrange;
use vstd::string::*;

use crate::distance::{less32, rank32, Metric};
use crate::error::{invalid, ErrorView, QuiverError};
use crate::index::beam::{candidate, lists_node};
use crate::index::exact::{all_candidates, all_numbers, listed_or_not_nearer, nearest,
    nearest_is_exact};
use crate::index::ranking::{closest, is_ranked, offer_closest, Candidate};
use crate::index::SearchResult;
use crate::metadata_encoding::len_field;
use crate::quantization::{all_finite, are_finite, is_encoder, trainable, training_error,
    training_fault, ScalarQuantizer};
use crate::storage::vecstore::vector_views;

verus! {

/// Whether a function can be called on any query and codes of this dimension,
/// and what it returns depends on their components alone.
pub open spec fn is_code_kernel<F: Fn(&[u32], &[u8]) -> u32>(f: F, dimension: nat) -> bool {
    &&& forall|q: &[u32], c: &[u8]|
        q@.len() == dimension && c@.len() == dimension ==> #[trigger] f.requires((q, c))
    &&& forall|q: &[u32], c: &[u8], r: u32, p: &[u32], d: &[u8], s: u32|
        #[trigger] f.ensures((q, c), r) && #[trigger] f.ensures((p, d), s) && q@ == p@ && c@ == d@
            ==> r == s
}

/// Whether a function may return `r` for a query and codes.
pub open spec fn is_code_distance<F: Fn(&[u32], &[u8]) -> u32>(
    f: F,
    query: Seq<u32>,
    codes: Seq<u8>,
    r: u32,
) -> bool {
    exists|q: &[u32], c: &[u8]| q@ == query && c@ == codes && #[trigger] f.ensures((q, c), r)
}

/// What a function returns for a query and codes.
pub open spec fn code_distance<F: Fn(&[u32], &[u8]) -> u32>(
    f: F,
    query: Seq<u32>,
    codes: Seq<u8>,
) -> u32 {
    choose|r: u32| is_code_distance(f, query, codes, r)
}

/// The distances of all coded vectors from a query.
pub open spec fn code_distances<F: Fn(&[u32], &[u8]) -> u32>(
    f: F,
    query: Seq<u32>,
    codes: Seq<Seq<u8>>,
) -> Seq<u32> {
    Seq::new(codes.len(), |i: int| code_distance(f, query, codes[i]))
}

/// Slots as search results; the vector in slot `s` has the ID `s + 1`.
pub open spec fn numbered_results(found: Seq<Candidate>) -> Seq<SearchResult> {
    Seq::new(
        found.len(),
        |i: int|
            SearchResult {
                slot: found[i].node_idx,
                vector_id: (found[i].node_idx + 1) as u64,
                distance: found[i].distance,
            },
    )
}

/// Whether these are the codes of some vectors.
pub open spec fn are_codes<E: Fn(u32, u32, u32) -> u8>(
    q: &ScalarQuantizer,
    encode: E,
    vector: Seq<u32>,
    codes: Seq<u8>,
) -> bool {
    &&& codes.len() == vector.len()
    &&& forall|d: int|
        0 <= d < vector.len() ==> q.is_code(encode, d, vector[d], #[trigger] codes[d])
}

/// The codes of vector `i` among codes that lie one vector behind the other.
#[verifier::opaque]
pub open spec fn row_at(codes: Seq<u8>, dimension: int, i: int) -> Seq<u8> {
    codes.subrange(i * dimension, i * dimension + dimension)
}

proof fn rows_grow(codes: Seq<u8>, row: Seq<u8>, dimension: int, n: nat)
    requires
        codes.len() == n * dimension,
        row.len() == dimension,
    ensures
        (codes + row).len() == (n + 1) * dimension,
        row_at(codes + row, dimension, n as int) == row,
        forall|i: int|
            0 <= i < n ==> #[trigger] row_at(codes + row, dimension, i) == row_at(
                codes,
                dimension,
                i,
            ),
{
    reveal(row_at);
    assert((n + 1) * dimension == n * dimension + dimension) by (nonlinear_arith);
    assert(row_at(codes + row, dimension, n as int) =~= row);
    assert forall|i: int| 0 <= i < n implies #[trigger] row_at(codes + row, dimension, i) == row_at(
        codes,
        dimension,
        i,
    ) by {
        assert(0 <= i * dimension && i * dimension + dimension <= n * dimension) by (nonlinear_arith)
            requires
                0 <= i < n,
                dimension >= 0,
        ;
        assert(row_at(codes + row, dimension, i) =~= row_at(codes, dimension, i));
    }
}

/// An index over coded vectors.
#[derive(Debug)]
pub struct Sq8Index {
    quantizer: ScalarQuantizer,
    codes: Vec<u8>,
    count: usize,
    metric: Metric,
}

impl Sq8Index {
    /// The codes lie one vector behind the other, and there is one at least.
    pub closed spec fn wf(&self) -> bool {
        &&& self.quantizer.wf()
        &&& self.count > 0
        &&& self.codes@.len() == self.count * self.quantizer.lows().len()
    }

    /// The ranges of the dimensions.
    pub closed spec fn spec_quantizer(&self) -> ScalarQuantizer {
        self.quantizer
    }

    /// The distance metric.
    pub closed spec fn spec_metric(&self) -> Metric {
        self.metric
    }

    /// The codes of every vector.
    pub closed spec fn rows(&self) -> Seq<Seq<u8>> {
        Seq::new(
            self.count as nat,
            |i: int| row_at(self.codes@, self.quantizer.lows().len() as int, i),
        )
    }

    /// Learns the ranges of the dimensions from some vectors and codes them.
    pub fn build<E: Fn(u32, u32, u32) -> u8>(
        vectors: &[Vec<u32>],
        metric: Metric,
        encode: &E,
    ) -> (result: Result<Self, QuiverError>)
        requires
            is_encoder(*encode),
        ensures
            match result {
                Ok(index) => {
                    &&& index.wf()
                    &&& index.spec_metric() == metric
                    &&& trainable(vector_views(vectors@), vectors@.len() as int)
                    &&& index.spec_quantizer().lows().len() == vector_views(vectors@)[0].len()
                    &&& index.spec_quantizer().lows() == Seq::new(
                        vector_views(vectors@)[0].len(),
                        |d: int|
                            crate::quantization::least(
                                vector_views(vectors@),
                                d,
                                vectors@.len(),
                            ),
                    )
                    &&& index.spec_quantizer().highs() == Seq::new(
                        vector_views(vectors@)[0].len(),
                        |d: int|
                            crate::quantization::greatest(
                                vector_views(vectors@),
                                d,
                                vectors@.len(),
                            ),
                    )
                    &&& index.rows().len() == vectors@.len()
                    &&& forall|i: int|
                        0 <= i < vectors@.len() ==> are_codes(
                            &index.spec_quantizer(),
                            *encode,
                            vector_views(vectors@)[i],
                            #[trigger] index.rows()[i],
                        )
                },
                Err(e) => training_error(vector_views(vectors@), e@),
            },
    {
        let ghost views = vector_views(vectors@);
        let quantizer = match ScalarQuantizer::train(vectors) {
            Ok(q) => q,
            Err(e) => return Err(e),
        };
        let ghost dimension = quantizer.lows().len() as int;
        let mut codes: Vec<u8> = Vec::new();
        assert(0 * dimension == 0);
        for i in 0..vectors.len()
            invariant
                is_encoder(*encode),
                quantizer.wf(),
                views == vector_views(vectors@),
                trainable(views, vectors@.len() as int),
                vectors@.len() > 0,
                dimension == quantizer.lows().len(),
                dimension == views[0].len(),
                codes@.len() == i * dimension,
                forall|j: int|
                    0 <= j < i ==> are_codes(
                        &quantizer,
                        *encode,
                        views[j],
                        #[trigger] row_at(codes@, dimension, j),
                    ),
        {
            assert(views[i as int] == vectors@[i as int]@);
            assert(training_fault(views[i as int], views[0].len()) is None);
            let ghost before = codes@;
            match quantizer.quantize(encode, vectors[i].as_slice()) {
                Ok(row) => {
                    codes.extend_from_slice(row.as_slice());
                    proof {
                        assert(codes@ =~= before + row@);
                        rows_grow(before, row@, dimension, i as nat);
                        assert forall|j: int| 0 <= j < i + 1 implies are_codes(
                            &quantizer,
                            *encode,
                            views[j],
                            #[trigger] row_at(codes@, dimension, j),
                        ) by {
                            if j < i {
                                assert(row_at(codes@, dimension, j) == row_at(before, dimension, j));
                            }
                        }
                    }
                },
                Err(e) => {
                    assert(false);
                    return Err(e);
                },
            }
        }
        let ghost flat = codes@;
        let index = Self { quantizer, codes, count: vectors.len(), metric };
        assert forall|i: int| 0 <= i < vectors@.len() implies are_codes(
            &index.spec_quantizer(),
            *encode,
            views[i],
            #[trigger] index.rows()[i],
        ) by {
            assert(index.rows()[i] == row_at(flat, dimension, i));
        }
        Ok(index)
    }

    /// Finds the `k` nearest neighbors of a query, the nearest first. `measure`
    /// gives the distance of a coded vector from the query.
    pub fn search<F: Fn(&[u32], &[u8]) -> u32>(&self, measure: &F, query: &[u32], k: usize) -> (
    result: Result<Vec<SearchResult>, QuiverError>)
        requires
            self.wf(),
            is_code_kernel(*measure, self.spec_quantizer().lows().len()),
        ensures
            match result {
                Ok(list) => {
                    &&& query@.len() == self.spec_quantizer().lows().len()
                    &&& all_finite(query@)
                    &&& list@ == numbered_results(
                        nearest(code_distances(*measure, query@, self.rows()), k as nat),
                    )
                    &&& forall|i: int|
                        0 <= i < list@.len() ==> {
                            let slot = (#[trigger] list@[i]).slot as int;
                            &&& slot < self.rows().len()
                            &&& list@[i].vector_id == slot + 1
                            &&& list@[i].distance == code_distance(
                                *measure,
                                query@,
                                self.rows()[slot],
                            )
                        }
                },
                Err(e) => if query@.len() != self.spec_quantizer().lows().len() {
                    e@ == (ErrorView::DimensionMismatch {
                        expected: len_field(self.spec_quantizer().lows().len()),
                        actual: len_field(query@.len()),
                    })
                } else {
                    !all_finite(query@) && e@ == ErrorView::InvalidFormat(
                        "SQ8 queries must contain only finite values"@,
                    )
                },
            },
    {
        let dimension: usize = self.dimension();
        if query.len() != dimension {
            return Err(QuiverError::DimensionMismatch {
                expected: (dimension as u64 % 0x1_0000_0000) as u32,
                actual: (query.len() as u64 % 0x1_0000_0000) as u32,
            });
        }
        if !are_finite(query) {
            return Err(invalid("SQ8 queries must contain only finite values"));
        }
        let ghost ds = code_distances(*measure, query@, self.rows());
        let ghost all = all_candidates(ds);
        let mut found: Vec<Candidate> = Vec::new();
        let mut at: usize = 0;
        assert(all.take(0) =~= Seq::empty());
        assert(0 * dimension == 0);
        for slot in 0..self.count
            invariant
                self.wf(),
                is_code_kernel(*measure, dimension as nat),
                query@.len() == dimension,
                dimension == self.quantizer.lows().len(),
                ds == code_distances(*measure, query@, self.rows()),
                all == all_candidates(ds),
                at == slot * dimension,
                is_ranked(found@),
                found@ == closest(all.take(slot as int), k as nat),
        {
            proof {
                assert((slot + 1) * dimension == slot * dimension + dimension) by (nonlinear_arith);
                assert((slot + 1) * dimension <= self.count * dimension) by (nonlinear_arith)
                    requires
                        slot + 1 <= self.count,
                        dimension >= 0,
                ;
            }
            assert(at + dimension <= self.codes.len());
            let row = slice_subrange(self.codes.as_slice(), at, at + dimension);
            proof {
                reveal(row_at);
                assert(row@ =~= self.rows()[slot as int]);
            }
            let d: u32 = measure(query, row);
            proof {
                assert(is_code_distance(*measure, query@, row@, d));
            }
            let c = Candidate { node_idx: slot, distance: d };
            proof {
                assert(all[slot as int] == c);
                assert(all.take(slot + 1).drop_last() =~= all.take(slot as int));
                assert(all.take(slot + 1).last() == c);
            }
            offer_closest(&mut found, c, k);
            at = at + dimension;
        }
        assert(all.take(self.count as int) =~= all);
        proof {
            nearest_is_exact(ds, k as nat);
            compressed_search_is_exact(*measure, query@, self.rows(), k as nat);
        }
        let mut results: Vec<SearchResult> = Vec::with_capacity(found.len());
        for i in 0..found.len()
            invariant
                forall|j: int|
                    0 <= j < found@.len() ==> (#[trigger] found@[j]).node_idx < self.count,
                results@ =~= numbered_results(found@).take(i as int),
        {
            let c = found[i];
            results.push(
                SearchResult {
                    slot: c.node_idx,
                    vector_id: c.node_idx as u64 + 1,
                    distance: c.distance,
                },
            );
        }
        assert(results@ =~= numbered_results(found@));
        Ok(results)
    }

    /// Number of vectors.
    pub fn len(&self) -> (n: usize)
        ensures
            n == self.rows().len(),
    {
        self.count
    }

    /// Whether there is no vector; a built index has one at least.
    pub fn is_empty(&self) -> (r: bool)
        ensures
            r == (self.rows().len() == 0),
            self.wf() ==> !r,
    {
        self.count == 0
    }

    /// Number of components of each vector.
    pub fn dimension(&self) -> (n: usize)
        ensures
            n == self.spec_quantizer().lows().len(),
    {
        self.quantizer.dimension()
    }

    /// The distance metric.
    pub fn metric(&self) -> (m: Metric)
        ensures
            m == self.spec_metric(),
    {
        self.metric
    }

    /// The ranges of the dimensions.
    pub fn quantizer(&self) -> (q: &ScalarQuantizer)
        ensures
            *q == self.spec_quantizer(),
    {
        &self.quantizer
    }

    /// Size of all codes: one byte for each component of each vector.
    pub fn vector_bytes(&self) -> (n: usize)
        requires
            self.wf(),
        ensures
            n == self.rows().len() * self.spec_quantizer().lows().len(),
    {
        self.codes.len()
    }
}

/// A search over coded vectors is exact for the distances of the codes. It returns
/// `k` vectors, or all where there are fewer, each once, the nearest first; each
/// result is numbered after its own slot, from 1 on, and has the distance of its
/// own codes; and no vector that is left out is nearer than the last that is
/// returned, nor, where every distance is a number, than any.
pub proof fn compressed_search_is_exact<F: Fn(&[u32], &[u8]) -> u32>(
    measure: F,
    query: Seq<u32>,
    rows: Seq<Seq<u8>>,
    k: nat,
)
    requires
        rows.len() <= usize::MAX,
    ensures
        ({
            let r = numbered_results(nearest(code_distances(measure, query, rows), k));
            &&& r.len() == (if rows.len() <= k { rows.len() } else { k })
            &&& forall|i: int|
                0 <= i < r.len() ==> {
                    let slot = (#[trigger] r[i]).slot as int;
                    &&& slot < rows.len()
                    &&& r[i].vector_id == slot + 1
                    &&& r[i].distance == code_distance(measure, query, rows[slot])
                }
            &&& forall|i: int, j: int|
                0 <= i < j < r.len() ==> (#[trigger] r[i]).slot != (#[trigger] r[j]).slot && rank32(
                    r[i].distance,
                ) <= rank32(r[j].distance)
            &&& forall|slot: int|
                0 <= slot < rows.len() && r.len() > 0 ==> (exists|i: int|
                    0 <= i < r.len() && (#[trigger] r[i]).slot == slot) || !less32(
                    code_distance(measure, query, #[trigger] rows[slot]),
                    r.last().distance,
                )
            &&& all_numbers(code_distances(measure, query, rows)) ==> forall|slot: int, i: int|
                0 <= slot < rows.len() && 0 <= i < r.len() ==> (exists|j: int|
                    0 <= j < r.len() && (#[trigger] r[j]).slot == slot) || rank32(
                    (#[trigger] r[i]).distance,
                ) <= rank32(code_distance(measure, query, #[trigger] rows[slot]))
        }),
{
    let ds = code_distances(measure, query, rows);
    let found = nearest(ds, k);
    let r = numbered_results(found);
    nearest_is_exact(ds, k);
    assert forall|i: int| 0 <= i < r.len() implies {
        let slot = (#[trigger] r[i]).slot as int;
        &&& slot < rows.len()
        &&& r[i].vector_id == slot + 1
        &&& r[i].distance == code_distance(measure, query, rows[slot])
    } by {
        assert(found[i].distance == ds[found[i].node_idx as int]);
    }
    assert forall|i: int, j: int| 0 <= i < j < r.len() implies (#[trigger] r[i]).slot != (
    #[trigger] r[j]).slot && rank32(r[i].distance) <= rank32(r[j].distance) by {
        assert(found[i].node_idx != found[j].node_idx);
        assert(found[i].rank() <= found[j].rank());
    }
    assert forall|slot: int| 0 <= slot < rows.len() && r.len() > 0 implies (exists|i: int|
        0 <= i < r.len() && (#[trigger] r[i]).slot == slot) || !less32(
        code_distance(measure, query, #[trigger] rows[slot]),
        r.last().distance,
    ) by {
        assert(listed_or_not_nearer(ds, found, k, slot));
        if lists_node(found, slot) {
            let i = choose|i: int| 0 <= i < found.len() && (#[trigger] found[i]).node_idx == slot;
            assert(r[i].slot == slot);
        }
    }
    if all_numbers(ds) {
        assert forall|slot: int, i: int| 0 <= slot < rows.len() && 0 <= i < r.len() implies (
        exists|j: int| 0 <= j < r.len() && (#[trigger] r[j]).slot == slot) || rank32(
            (#[trigger] r[i]).distance,
        ) <= rank32(code_distance(measure, query, #[trigger] rows[slot])) by {
            assert(found[i].distance == r[i].distance);
            assert(candidate(ds, slot).distance == ds[slot]);
            if lists_node(found, slot) {
                let j = choose|j: int|
                    0 <= j < found.len() && (#[trigger] found[j]).node_idx == slot;
                assert(r[j].slot == slot);
            }
        }
    }
}

/// The distance of a coded vector is what the function handed in returns for it,
/// whenever it is called.
pub proof fn code_distance_is_what_is_returned<F: Fn(&[u32], &[u8]) -> u32>(
    f: F,
    dimension: nat,
    query: &[u32],
    codes: &[u8],
    r: u32,
)
    requires
        is_code_kernel(f, dimension),
        f.ensures((query, codes), r),
    ensures
        code_distance(f, query@, codes@) == r,
{
    assert(is_code_distance(f, query@, codes@, r));
    let d = code_distance(f, query@, codes@);
    assert(is_code_distance(f, query@, codes@, d));
    let (x, y) = choose|x: &[u32], y: &[u8]|
        x@ == query@ && y@ == codes@ && #[trigger] f.ensures((x, y), d);
    assert(f.ensures((query, codes), r) && f.ensures((x, y), d));
}

} // verus!
