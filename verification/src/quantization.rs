//! Scalar quantization: one byte for each component of a vector.
//!
//! Every dimension is mapped from the range of values seen in training to the
//! codes 0 to 255. Training and all checks are done here; the caller supplies
//! the arithmetic that maps a value of a range to its code and back.
use vstd::prelude::*;
use vstd::string::*;

use crate::distance::{at_most, at_most32, float_is_finite, is_finite32, rank, rank32};
use crate::error::{invalid, ErrorView, QuiverError};
use crate::metadata_encoding::len_field;
use crate::storage::vecstore::{copy_vector, vector_views};

verus! {

/// The pattern of positive infinity.
pub const INFINITY: u32 = 0x7f80_0000;

/// The pattern of negative infinity.
pub const NEG_INFINITY: u32 = 0xff80_0000;

/// The least of the components in one dimension of the first `n` vectors; the
/// first of those that are equal.
pub open spec fn least(vectors: Seq<Seq<u32>>, dim: int, n: nat) -> u32
    decreases n,
{
    if n == 0 {
        INFINITY
    } else {
        let before = least(vectors, dim, (n - 1) as nat);
        if rank32(vectors[n - 1][dim]) < rank32(before) {
            vectors[n - 1][dim]
        } else {
            before
        }
    }
}

/// The greatest of the components in one dimension of the first `n` vectors; the
/// first of those that are equal.
pub open spec fn greatest(vectors: Seq<Seq<u32>>, dim: int, n: nat) -> u32
    decreases n,
{
    if n == 0 {
        NEG_INFINITY
    } else {
        let before = greatest(vectors, dim, (n - 1) as nat);
        if rank32(vectors[n - 1][dim]) > rank32(before) {
            vectors[n - 1][dim]
        } else {
            before
        }
    }
}

/// Whether every component is a finite number.
pub open spec fn all_finite(v: Seq<u32>) -> bool {
    forall|i: int| 0 <= i < v.len() ==> is_finite32(#[trigger] v[i])
}

/// Why a vector cannot take part in training, if it cannot.
pub open spec fn training_fault(v: Seq<u32>, dimension: nat) -> Option<ErrorView> {
    if v.len() != dimension {
        Some(ErrorView::DimensionMismatch {
            expected: len_field(dimension),
            actual: len_field(v.len()),
        })
    } else if !all_finite(v) {
        Some(ErrorView::InvalidFormat("SQ8 training vectors must contain only finite values"@))
    } else {
        None
    }
}

/// Why training fails, if it does: there are no vectors, the first is empty, or
/// one (the first such counts) differs in length or holds a value that is not
/// finite.
pub open spec fn training_error(vectors: Seq<Seq<u32>>, e: ErrorView) -> bool {
    if vectors.len() == 0 {
        e == ErrorView::EmptyIndex
    } else if vectors[0].len() == 0 {
        e == (ErrorView::DimensionMismatch { expected: 1, actual: 0 })
    } else {
        exists|i: int|
            0 <= i < vectors.len() && training_fault(#[trigger] vectors[i], vectors[0].len())
                == Some(e) && trainable(vectors, i)
    }
}

/// Whether the first `n` vectors can take part in training.
pub open spec fn trainable(vectors: Seq<Seq<u32>>, n: int) -> bool {
    forall|i: int|
        0 <= i < n ==> training_fault(#[trigger] vectors[i], vectors[0].len()) is None
}

/// Whether a value lies between two others, all of them finite numbers.
pub open spec fn between(low: u32, value: u32, high: u32) -> bool {
    &&& is_finite32(low)
    &&& is_finite32(value)
    &&& is_finite32(high)
    &&& rank32(low) < rank32(value) < rank32(high)
}

/// Whether a function gives every value between two ends a code, and a greater
/// value never a smaller one.
pub open spec fn is_encoder<E: Fn(u32, u32, u32) -> u8>(encode: E) -> bool {
    &&& forall|low: u32, high: u32, value: u32|
        between(low, value, high) ==> #[trigger] encode.requires((low, high, value))
    &&& forall|low: u32, high: u32, v: u32, w: u32, cv: u8, cw: u8|
        #[trigger] encode.ensures((low, high, v), cv) && #[trigger] encode.ensures((low, high, w), cw)
            && between(low, v, high) && between(low, w, high) && rank32(v) <= rank32(w) ==> cv <= cw
}

/// Whether a function gives every code a value, given the ends of a range, and
/// the value is a finite number.
pub open spec fn is_decoder<D: Fn(u32, u32, u8) -> u32>(decode: D) -> bool {
    &&& forall|low: u32, high: u32, code: u8|
        is_finite32(low) && is_finite32(high) ==> #[trigger] decode.requires((low, high, code))
    &&& forall|low: u32, high: u32, code: u8, value: u32|
        is_finite32(low) && is_finite32(high) && #[trigger] decode.ensures((low, high, code), value)
            ==> is_finite32(value)
}

/// A value as it comes out of a sum: of the two zeros, the one without a sign.
pub open spec fn plain_zero(value: u32) -> u32 {
    if value == 0x8000_0000 { 0 } else { value }
}

/// The range of values of each dimension.
#[derive(Debug)]
pub struct ScalarQuantizer {
    mins: Vec<u32>,
    maxs: Vec<u32>,
}

impl Clone for ScalarQuantizer {
    fn clone(&self) -> (copy: Self)
        ensures
            copy.lows() == self.lows(),
            copy.highs() == self.highs(),
            copy.wf() == self.wf(),
    {
        ScalarQuantizer {
            mins: copy_vector(self.mins.as_slice()),
            maxs: copy_vector(self.maxs.as_slice()),
        }
    }
}

impl ScalarQuantizer {
    /// Every dimension has both ends of its range, which are finite numbers in
    /// their order, and there is one at least.
    pub open spec fn wf(&self) -> bool {
        &&& self.lows().len() == self.highs().len()
        &&& self.lows().len() > 0
        &&& forall|d: int|
            0 <= d < self.lows().len() ==> is_finite32(#[trigger] self.lows()[d]) && is_finite32(
                self.highs()[d],
            ) && rank32(self.lows()[d]) <= rank32(self.highs()[d])
    }

    /// The least value of each dimension.
    pub closed spec fn lows(&self) -> Seq<u32> {
        self.mins@
    }

    /// The greatest value of each dimension.
    pub closed spec fn highs(&self) -> Seq<u32> {
        self.maxs@
    }

    /// Whether a dimension had but one value in training.
    pub open spec fn is_constant(&self, dim: int) -> bool {
        rank32(self.lows()[dim]) == rank32(self.highs()[dim])
    }

    /// Whether a value of a dimension has this code: 0 up to the least value of
    /// training, 255 from the greatest on, and in between what `encode` gives. In a
    /// dimension that had but one value every code is 0.
    pub open spec fn is_code<E: Fn(u32, u32, u32) -> u8>(
        &self,
        encode: E,
        dim: int,
        value: u32,
        code: u8,
    ) -> bool {
        if self.is_constant(dim) || at_most32(value, self.lows()[dim]) {
            code == 0
        } else if at_most32(self.highs()[dim], value) {
            code == 255
        } else {
            encode.ensures((self.lows()[dim], self.highs()[dim], value), code)
        }
    }

    /// Whether a code of a dimension has this value: the least value of training
    /// where the code is 0 or the dimension had but one value, and else what
    /// `decode` gives.
    pub open spec fn is_value<D: Fn(u32, u32, u8) -> u32>(
        &self,
        decode: D,
        dim: int,
        code: u8,
        value: u32,
    ) -> bool {
        if code == 0 || self.is_constant(dim) {
            value == plain_zero(self.lows()[dim])
        } else {
            decode.ensures((self.lows()[dim], self.highs()[dim], code), value)
        }
    }

    /// Learns the range of each dimension from some vectors.
    pub fn train(vectors: &[Vec<u32>]) -> (result: Result<Self, QuiverError>)
        ensures
            match result {
                Ok(q) => {
                    &&& q.wf()
                    &&& vectors@.len() > 0
                    &&& vector_views(vectors@)[0].len() > 0
                    &&& trainable(vector_views(vectors@), vectors@.len() as int)
                    &&& q.lows() == Seq::new(
                        vector_views(vectors@)[0].len(),
                        |d: int| least(vector_views(vectors@), d, vectors@.len()),
                    )
                    &&& q.highs() == Seq::new(
                        vector_views(vectors@)[0].len(),
                        |d: int| greatest(vector_views(vectors@), d, vectors@.len()),
                    )
                },
                Err(e) => training_error(vector_views(vectors@), e@),
            },
    {
        let ghost views = vector_views(vectors@);
        if vectors.len() == 0 {
            return Err(QuiverError::EmptyIndex);
        }
        let dimension: usize = vectors[0].len();
        assert(views[0].len() == dimension);
        if dimension == 0 {
            return Err(QuiverError::DimensionMismatch { expected: 1, actual: 0 });
        }
        let mut mins: Vec<u32> = Vec::new();
        let mut maxs: Vec<u32> = Vec::new();
        for d in 0..dimension
            invariant
                mins@.len() == d,
                maxs@.len() == d,
                forall|j: int| 0 <= j < d ==> #[trigger] mins@[j] == INFINITY,
                forall|j: int| 0 <= j < d ==> #[trigger] maxs@[j] == NEG_INFINITY,
        {
            mins.push(INFINITY);
            maxs.push(NEG_INFINITY);
        }
        for i in 0..vectors.len()
            invariant
                views == vector_views(vectors@),
                vectors@.len() > 0,
                views[0].len() == dimension,
                dimension > 0,
                mins@.len() == dimension,
                maxs@.len() == dimension,
                trainable(views, i as int),
                forall|d: int| 0 <= d < dimension ==> #[trigger] mins@[d] == least(views, d, i as nat),
                forall|d: int|
                    0 <= d < dimension ==> #[trigger] maxs@[d] == greatest(views, d, i as nat),
        {
            let vector = &vectors[i];
            assert(views[i as int] == vector@);
            if vector.len() != dimension {
                return Err(QuiverError::DimensionMismatch {
                    expected: (dimension as u64 % 0x1_0000_0000) as u32,
                    actual: (vector.len() as u64 % 0x1_0000_0000) as u32,
                });
            }
            for d in 0..dimension
                invariant
                    views == vector_views(vectors@),
                    views[0].len() == dimension,
                    dimension > 0,
                    i < vectors@.len(),
                    vector@ == views[i as int],
                    vector@.len() == dimension,
                    mins@.len() == dimension,
                    maxs@.len() == dimension,
                    trainable(views, i as int),
                    forall|j: int| 0 <= j < d ==> is_finite32(#[trigger] vector@[j]),
                    forall|j: int|
                        0 <= j < dimension ==> #[trigger] mins@[j] == least(
                            views,
                            j,
                            (if j < d { i + 1 } else { i as int }) as nat,
                        ),
                    forall|j: int|
                        0 <= j < dimension ==> #[trigger] maxs@[j] == greatest(
                            views,
                            j,
                            (if j < d { i + 1 } else { i as int }) as nat,
                        ),
            {
                let value: u32 = vector[d];
                if !float_is_finite(value) {
                    assert(!is_finite32(vector@[d as int]));
                    assert(!all_finite(views[i as int]));
                    return Err(invalid("SQ8 training vectors must contain only finite values"));
                }
                if rank(value) < rank(mins[d]) {
                    mins.set(d, value);
                }
                if rank(value) > rank(maxs[d]) {
                    maxs.set(d, value);
                }
            }
        }
        let q = Self { mins, maxs };
        proof {
            assert(q.lows() =~= Seq::new(dimension as nat, |d: int| least(views, d, vectors@.len())));
            assert(q.highs() =~= Seq::new(
                dimension as nat,
                |d: int| greatest(views, d, vectors@.len()),
            ));
            assert forall|d: int| 0 <= d < dimension implies is_finite32(#[trigger] q.lows()[d])
                && is_finite32(q.highs()[d]) && rank32(q.lows()[d]) <= rank32(q.highs()[d]) by {
                trained_range(views, d);
            }
        }
        Ok(q)
    }

    /// Codes a vector. `encode` maps the ends of a range and a value between them
    /// to the value's code; values outside the range have the code of its end.
    pub fn quantize<E: Fn(u32, u32, u32) -> u8>(&self, encode: &E, vector: &[u32]) -> (result:
        Result<Vec<u8>, QuiverError>)
        requires
            self.wf(),
            is_encoder(*encode),
        ensures
            match result {
                Ok(codes) => {
                    &&& vector@.len() == self.lows().len()
                    &&& all_finite(vector@)
                    &&& codes@.len() == vector@.len()
                    &&& forall|d: int|
                        0 <= d < vector@.len() ==> self.is_code(
                            *encode,
                            d,
                            vector@[d],
                            #[trigger] codes@[d],
                        )
                },
                Err(e) => if vector@.len() != self.lows().len() {
                    e@ == (ErrorView::DimensionMismatch {
                        expected: len_field(self.lows().len()),
                        actual: len_field(vector@.len()),
                    })
                } else {
                    !all_finite(vector@) && e@ == ErrorView::InvalidFormat(
                        "SQ8 vectors must contain only finite values"@,
                    )
                },
            },
    {
        match self.validate_dimension(vector.len()) {
            Err(e) => return Err(e),
            Ok(_) => {},
        }
        if !are_finite(vector) {
            return Err(invalid("SQ8 vectors must contain only finite values"));
        }
        let mut codes: Vec<u8> = Vec::with_capacity(vector.len());
        for d in 0..vector.len()
            invariant
                self.wf(),
                is_encoder(*encode),
                all_finite(vector@),
                vector@.len() == self.lows().len(),
                codes@.len() == d,
                forall|j: int|
                    0 <= j < d ==> self.is_code(*encode, j, vector@[j], #[trigger] codes@[j]),
        {
            let low: u32 = self.mins[d];
            let high: u32 = self.maxs[d];
            assert(is_finite32(self.lows()[d as int]) && is_finite32(vector@[d as int]));
            let code: u8 = if rank(low) == rank(high) || at_most(vector[d], low) {
                0
            } else if at_most(high, vector[d]) {
                255
            } else {
                encode(low, high, vector[d])
            };
            codes.push(code);
        }
        Ok(codes)
    }

    /// Maps codes back to values. `decode` maps the ends of a range and a code
    /// to the code's value.
    pub fn dequantize<D: Fn(u32, u32, u8) -> u32>(&self, decode: &D, codes: &[u8]) -> (result:
        Result<Vec<u32>, QuiverError>)
        requires
            self.wf(),
            is_decoder(*decode),
        ensures
            match result {
                Ok(values) => {
                    &&& codes@.len() == self.lows().len()
                    &&& values@.len() == codes@.len()
                    &&& all_finite(values@)
                    &&& forall|d: int|
                        0 <= d < codes@.len() ==> self.is_value(
                            *decode,
                            d,
                            codes@[d],
                            #[trigger] values@[d],
                        )
                },
                Err(e) => {
                    &&& codes@.len() != self.lows().len()
                    &&& e@ == (ErrorView::DimensionMismatch {
                        expected: len_field(self.lows().len()),
                        actual: len_field(codes@.len()),
                    })
                },
            },
    {
        match self.validate_dimension(codes.len()) {
            Err(e) => return Err(e),
            Ok(_) => {},
        }
        let mut values: Vec<u32> = Vec::with_capacity(codes.len());
        for d in 0..codes.len()
            invariant
                self.wf(),
                is_decoder(*decode),
                codes@.len() == self.lows().len(),
                values@.len() == d,
                all_finite(values@),
                forall|j: int|
                    0 <= j < d ==> self.is_value(*decode, j, codes@[j], #[trigger] values@[j]),
        {
            let low: u32 = self.mins[d];
            let high: u32 = self.maxs[d];
            assert(is_finite32(self.lows()[d as int]));
            let value: u32 = if codes[d] == 0 || rank(low) == rank(high) {
                if low == 0x8000_0000 {
                    0
                } else {
                    low
                }
            } else {
                decode(low, high, codes[d])
            };
            values.push(value);
        }
        Ok(values)
    }

    /// Number of dimensions.
    pub fn dimension(&self) -> (n: usize)
        ensures
            n == self.lows().len(),
    {
        self.mins.len()
    }

    /// Both ends of the range of a dimension.
    pub fn range(&self, dim: usize) -> (range: (u32, u32))
        requires
            self.wf(),
            dim < self.lows().len(),
        ensures
            range == (self.lows()[dim as int], self.highs()[dim as int]),
    {
        (self.mins[dim], self.maxs[dim])
    }

    fn validate_dimension(&self, len: usize) -> (result: Result<(), QuiverError>)
        ensures
            match result {
                Ok(_) => len == self.lows().len(),
                Err(e) => {
                    &&& len != self.lows().len()
                    &&& e@ == (ErrorView::DimensionMismatch {
                        expected: len_field(self.lows().len()),
                        actual: len_field(len as nat),
                    })
                },
            },
    {
        if len != self.mins.len() {
            return Err(QuiverError::DimensionMismatch {
                expected: (self.mins.len() as u64 % 0x1_0000_0000) as u32,
                actual: (len as u64 % 0x1_0000_0000) as u32,
            });
        }
        Ok(())
    }
}

/// Whether every component is a finite number.
pub fn are_finite(vector: &[u32]) -> (r: bool)
    ensures
        r == all_finite(vector@),
{
    for i in 0..vector.len()
        invariant
            forall|j: int| 0 <= j < i ==> is_finite32(#[trigger] vector@[j]),
    {
        if !float_is_finite(vector[i]) {
            assert(!is_finite32(vector@[i as int]));
            return false;
        }
    }
    true
}

/// The ends of a trained range are values that were seen, and every value that
/// was seen lies between them.
pub proof fn range_is_tight(vectors: Seq<Seq<u32>>, dim: int, n: nat)
    requires
        0 < n <= vectors.len(),
        forall|i: int| 0 <= i < n ==> all_finite(#[trigger] vectors[i]) && dim < vectors[i].len(),
        0 <= dim,
    ensures
        forall|i: int|
            0 <= i < n ==> rank32(least(vectors, dim, n)) <= rank32((#[trigger] vectors[i])[dim])
                <= rank32(greatest(vectors, dim, n)),
        exists|i: int| 0 <= i < n && least(vectors, dim, n) == (#[trigger] vectors[i])[dim],
        exists|i: int| 0 <= i < n && greatest(vectors, dim, n) == (#[trigger] vectors[i])[dim],
    decreases n,
{
    assert(all_finite(vectors[n - 1]));
    assert(is_finite32(vectors[n - 1][dim]));
    if n == 1 {
        reveal_with_fuel(least, 2);
        reveal_with_fuel(greatest, 2);
        assert(least(vectors, dim, n) == vectors[0][dim]);
        assert(greatest(vectors, dim, n) == vectors[0][dim]);
    } else {
        let m = (n - 1) as nat;
        range_is_tight(vectors, dim, m);
        let i = choose|i: int| 0 <= i < m && least(vectors, dim, m) == (#[trigger] vectors[i])[dim];
        let j = choose|j: int|
            0 <= j < m && greatest(vectors, dim, m) == (#[trigger] vectors[j])[dim];
        if rank32(vectors[n - 1][dim]) < rank32(least(vectors, dim, m)) {
            assert(least(vectors, dim, n) == vectors[n - 1][dim]);
        } else {
            assert(least(vectors, dim, n) == vectors[i][dim]);
        }
        if rank32(vectors[n - 1][dim]) > rank32(greatest(vectors, dim, m)) {
            assert(greatest(vectors, dim, n) == vectors[n - 1][dim]);
        } else {
            assert(greatest(vectors, dim, n) == vectors[j][dim]);
        }
    }
}

/// The ends of the range of a dimension that vectors were trained with.
proof fn trained_range(vectors: Seq<Seq<u32>>, dim: int)
    requires
        vectors.len() > 0,
        trainable(vectors, vectors.len() as int),
        0 <= dim < vectors[0].len(),
    ensures
        ({
            let low = least(vectors, dim, vectors.len());
            let high = greatest(vectors, dim, vectors.len());
            is_finite32(low) && is_finite32(high) && rank32(low) <= rank32(high)
        }),
{
    let n = vectors.len();
    assert forall|i: int| 0 <= i < n implies all_finite(#[trigger] vectors[i]) && dim
        < vectors[i].len() by {
        assert(training_fault(vectors[i], vectors[0].len()) is None);
    }
    range_is_tight(vectors, dim, n);
    let i = choose|i: int| 0 <= i < n && least(vectors, dim, n) == (#[trigger] vectors[i])[dim];
    let j = choose|j: int| 0 <= j < n && greatest(vectors, dim, n) == (#[trigger] vectors[j])[dim];
    assert(all_finite(vectors[i]) && all_finite(vectors[j]));
    assert(is_finite32(vectors[i][dim]) && is_finite32(vectors[j][dim]));
}

/// Codes are in the order of the values, and values outside the range of training
/// are held to its ends. Each code depends on its own value alone.
pub proof fn codes_keep_order<E: Fn(u32, u32, u32) -> u8>(
    q: &ScalarQuantizer,
    encode: E,
    dim: int,
    v: u32,
    w: u32,
    cv: u8,
    cw: u8,
)
    requires
        q.wf(),
        is_encoder(encode),
        0 <= dim < q.lows().len(),
        is_finite32(v),
        is_finite32(w),
        q.is_code(encode, dim, v, cv),
        q.is_code(encode, dim, w, cw),
    ensures
        rank32(v) <= rank32(q.lows()[dim]) ==> cv == 0,
        rank32(q.lows()[dim]) < rank32(q.highs()[dim]) <= rank32(v) ==> cv == 255,
        q.is_constant(dim) ==> cv == 0,
        rank32(v) <= rank32(w) ==> cv <= cw,
        v == w ==> cv == cw,
        rank32(q.lows()[dim]) < rank32(v) < rank32(q.highs()[dim]) ==> encode.ensures(
            (q.lows()[dim], q.highs()[dim], v),
            cv,
        ),
{
    let low = q.lows()[dim];
    let high = q.highs()[dim];
    assert(is_finite32(low));
    if between(low, v, high) && between(low, w, high) {
        assert(encode.ensures((low, high, v), cv) && encode.ensures((low, high, w), cw));
    }
}

/// What was the only value of a dimension, or the least, comes back from its code
/// as it was; of the two zeros, as the one without a sign.
pub proof fn least_value_comes_back<E: Fn(u32, u32, u32) -> u8, D: Fn(u32, u32, u8) -> u32>(
    q: &ScalarQuantizer,
    encode: E,
    decode: D,
    dim: int,
    code: u8,
    value: u32,
)
    requires
        q.wf(),
        0 <= dim < q.lows().len(),
        q.is_code(encode, dim, q.lows()[dim], code),
        q.is_value(decode, dim, code, value),
    ensures
        code == 0,
        value == plain_zero(q.lows()[dim]),
        rank32(value) == rank32(q.lows()[dim]),
        is_finite32(value),
{
    assert(is_finite32(q.lows()[dim]));
}

/// A code stands for the least value of its dimension where it is 0 or the
/// dimension had but one value, and else for what the function handed in gives for
/// that code and the ends of that very dimension.
pub proof fn values_are_those_of_the_codes<D: Fn(u32, u32, u8) -> u32>(
    q: &ScalarQuantizer,
    decode: D,
    dim: int,
    code: u8,
    value: u32,
)
    requires
        q.wf(),
        0 <= dim < q.lows().len(),
        q.is_value(decode, dim, code, value),
    ensures
        code == 0 || rank32(q.lows()[dim]) == rank32(q.highs()[dim]) ==> rank32(value) == rank32(
            q.lows()[dim],
        ),
        code != 0 && rank32(q.lows()[dim]) < rank32(q.highs()[dim]) ==> decode.ensures(
            (q.lows()[dim], q.highs()[dim], code),
            value,
        ),
{
    assert(is_finite32(q.lows()[dim]));
}

/// Vectors can be trained on if and only if all have the length of the first and hold
/// finite numbers alone, that is none with all bits of the exponent set.
pub proof fn training_takes_finite_vectors(vectors: Seq<Seq<u32>>)
    ensures
        trainable(vectors, vectors.len() as int) <==> forall|i: int|
            0 <= i < vectors.len() ==> (#[trigger] vectors[i]).len() == vectors[0].len() && forall|
                j: int,
            |
                0 <= j < vectors[i].len() ==> #[trigger] vectors[i][j] % 0x8000_0000 < 0x7f80_0000,
{
    let n = vectors.len() as int;
    if trainable(vectors, n) {
        assert forall|i: int| 0 <= i < n implies (#[trigger] vectors[i]).len() == vectors[0].len()
            && forall|j: int|
            0 <= j < vectors[i].len() ==> #[trigger] vectors[i][j] % 0x8000_0000 < 0x7f80_0000 by {
            assert(training_fault(vectors[i], vectors[0].len()) is None);
            assert forall|j: int| 0 <= j < vectors[i].len() implies #[trigger] vectors[i][j]
                % 0x8000_0000 < 0x7f80_0000 by {
                assert(is_finite32(vectors[i][j]));
            }
        }
    } else {
        let i = choose|i: int|
            0 <= i < n && training_fault(#[trigger] vectors[i], vectors[0].len()) is Some;
        if vectors[i].len() == vectors[0].len() {
            let j = choose|j: int| 0 <= j < vectors[i].len() && !is_finite32(#[trigger] vectors[i][j]);
            assert(!is_finite32(vectors[i][j]));
            assert(!(vectors[i][j] % 0x8000_0000 < 0x7f80_0000));
        }
    }
}

} // verus!
