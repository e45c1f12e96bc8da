//! Distance metrics, and the order of distances.
//!
//! A component of a vector and a distance are held as the bit pattern of an
//! IEEE 754 number. What the library needs of such numbers is to compare them,
//! which the functions here do on the patterns.
use vstd::prelude::*;

verus! {

/// The distance metric to use for similarity computation.
#[derive(Debug, Clone, Copy, PartialEq, Eq, Structural)]
pub enum Metric {
    /// Euclidean distance. Lower is more similar.
    L2,
    /// Dot product. Higher is more similar.
    DotProduct,
    /// Cosine similarity. Higher is more similar.
    Cosine,
}

/// The metric that a byte of a file names.
pub open spec fn metric_of(byte: u8) -> Option<Metric> {
    if byte == 0 {
        Some(Metric::L2)
    } else if byte == 1 {
        Some(Metric::DotProduct)
    } else if byte == 2 {
        Some(Metric::Cosine)
    } else {
        None
    }
}

impl Metric {
    /// The byte that names this metric in a file.
    pub open spec fn code(self) -> u8 {
        match self {
            Metric::L2 => 0,
            Metric::DotProduct => 1,
            Metric::Cosine => 2,
        }
    }

    /// The metric that a raw byte names, if any.
    pub fn from_u8(value: u8) -> (metric: Option<Metric>)
        ensures
            metric == metric_of(value),
    {
        match value {
            0 => Some(Metric::L2),
            1 => Some(Metric::DotProduct),
            2 => Some(Metric::Cosine),
            _ => None,
        }
    }

    /// The byte that names this metric in a file.
    pub fn to_u8(self) -> (byte: u8)
        ensures
            byte == self.code(),
    {
        match self {
            Metric::L2 => 0,
            Metric::DotProduct => 1,
            Metric::Cosine => 2,
        }
    }
}

/// Every metric is read back from the byte that names it.
pub proof fn metric_code_round_trip(metric: Metric)
    ensures
        metric_of(metric.code()) == Some(metric),
{
}

/// The bits below the sign of a 32-bit float.
pub open spec fn magnitude32(bits: u32) -> int {
    bits as int % 0x8000_0000
}

/// Whether a pattern is a 32-bit "not a number".
pub open spec fn is_nan32(bits: u32) -> bool {
    magnitude32(bits) > 0x7f80_0000
}

/// Whether a pattern is a finite 32-bit float.
pub open spec fn is_finite32(bits: u32) -> bool {
    magnitude32(bits) < 0x7f80_0000
}

/// An integer for every 32-bit float, in the order of the numbers themselves.
/// The two zeros share one. Lists are in this order; "not a number", which no
/// comparison puts before or behind a number, is last in them.
pub open spec fn rank32(bits: u32) -> int {
    if is_nan32(bits) {
        0x8000_0000
    } else if bits < 0x8000_0000 {
        magnitude32(bits)
    } else {
        -magnitude32(bits)
    }
}

/// `a < b` on 32-bit floats: "not a number" is neither less nor greater than
/// anything.
pub open spec fn less32(a: u32, b: u32) -> bool {
    !is_nan32(a) && !is_nan32(b) && rank32(a) < rank32(b)
}

/// `a <= b` on 32-bit floats.
pub open spec fn at_most32(a: u32, b: u32) -> bool {
    !is_nan32(a) && !is_nan32(b) && rank32(a) <= rank32(b)
}

/// The bits below the sign of a 64-bit float.
pub open spec fn magnitude64(bits: u64) -> int {
    bits as int % 0x8000_0000_0000_0000
}

/// Whether a pattern is a 64-bit "not a number".
pub open spec fn is_nan64(bits: u64) -> bool {
    magnitude64(bits) > 0x7ff0_0000_0000_0000
}

/// `a == b` on 64-bit floats: "not a number" equals nothing, and the two zeros
/// are equal.
pub open spec fn equal64(a: u64, b: u64) -> bool {
    !is_nan64(a) && !is_nan64(b) && (a == b || (magnitude64(a) == 0 && magnitude64(b) == 0))
}

/// The place of a 32-bit float in the order of distances.
pub fn rank(bits: u32) -> (r: i64)
    ensures
        r == rank32(bits),
{
    if float_is_nan(bits) {
        0x8000_0000
    } else if bits < 0x8000_0000 {
        bits as i64
    } else {
        -((bits - 0x8000_0000) as i64)
    }
}

/// `a < b` on 32-bit floats.
pub fn less(a: u32, b: u32) -> (r: bool)
    ensures
        r == less32(a, b),
{
    !float_is_nan(a) && !float_is_nan(b) && rank(a) < rank(b)
}

/// `a <= b` on 32-bit floats.
pub fn at_most(a: u32, b: u32) -> (r: bool)
    ensures
        r == at_most32(a, b),
{
    !float_is_nan(a) && !float_is_nan(b) && rank(a) <= rank(b)
}

/// Whether a pattern is a 32-bit "not a number".
pub fn float_is_nan(bits: u32) -> (b: bool)
    ensures
        b == is_nan32(bits),
{
    bits % 0x8000_0000 > 0x7f80_0000
}

/// Whether a pattern is a finite 32-bit float.
pub fn float_is_finite(bits: u32) -> (b: bool)
    ensures
        b == is_finite32(bits),
{
    bits % 0x8000_0000 < 0x7f80_0000
}

/// `a == b` on 64-bit floats.
pub fn double_equal(a: u64, b: u64) -> (r: bool)
    ensures
        r == equal64(a, b),
{
    let ma: u64 = a % 0x8000_0000_0000_0000;
    let mb: u64 = b % 0x8000_0000_0000_0000;
    ma <= 0x7ff0_0000_0000_0000 && mb <= 0x7ff0_0000_0000_0000 && (a == b || (ma == 0 && mb == 0))
}

/// Comparisons are those of IEEE 754. Of two numbers with the same sign the
/// patterns decide, one way or the other; a negative number is less than a
/// positive one, but for the two zeros, which are equal; and a pattern above
/// infinity, which is no number, is neither less than anything nor equal to it,
/// nor greater.
pub proof fn comparison_is_that_of_floats(a: u32, b: u32)
    ensures
        ({
            let numbers = a % 0x8000_0000 <= 0x7f80_0000 && b % 0x8000_0000 <= 0x7f80_0000;
            &&& !numbers ==> !less32(a, b) && !at_most32(a, b)
            &&& numbers && a < 0x8000_0000 && b < 0x8000_0000 ==> (less32(a, b) <==> a < b)
            &&& numbers && a >= 0x8000_0000 && b >= 0x8000_0000 ==> (less32(a, b) <==> b < a)
            &&& numbers && a >= 0x8000_0000 && b < 0x8000_0000 ==> (less32(a, b) <==> !(a
                == 0x8000_0000 && b == 0))
            &&& numbers && a < 0x8000_0000 && b >= 0x8000_0000 ==> !less32(a, b)
            &&& numbers ==> (at_most32(a, b) <==> !less32(b, a))
        }),
{
}

/// The order of lists is that of the comparisons; what is no number is behind
/// every number.
pub proof fn rank_is_the_order_of_floats(a: u32, b: u32)
    ensures
        ({
            let a_number = a % 0x8000_0000 <= 0x7f80_0000;
            let b_number = b % 0x8000_0000 <= 0x7f80_0000;
            &&& a_number && b_number ==> (rank32(a) < rank32(b) <==> less32(a, b))
            &&& a_number && !b_number ==> rank32(a) < rank32(b)
            &&& !a_number && !b_number ==> rank32(a) == rank32(b)
            &&& is_nan32(a) <==> !a_number
            &&& is_finite32(a) <==> a % 0x8000_0000 < 0x7f80_0000
        }),
{
}

/// Two 64-bit floats are equal if and only if both are numbers and they have the
/// same bits, or both are zeros.
pub proof fn equality_is_that_of_floats(a: u64, b: u64)
    ensures
        equal64(a, b) <==> {
            &&& a % 0x8000_0000_0000_0000 <= 0x7ff0_0000_0000_0000
            &&& b % 0x8000_0000_0000_0000 <= 0x7ff0_0000_0000_0000
            &&& a == b || ((a == 0 || a == 0x8000_0000_0000_0000) && (b == 0 || b
                == 0x8000_0000_0000_0000))
        },
{
}

} // verus!
