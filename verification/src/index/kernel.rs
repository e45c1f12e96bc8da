//! The distance computation that a search is given.
//!
//! A kernel takes two vectors of the same dimension and returns their distance,
//! the lower the more similar, all as bit patterns of floating-point numbers.
use vstd::prelude::*;

verus! {

/// Whether a kernel can be called on any two vectors of this dimension, and
/// what it returns depends on their components alone.
pub open spec fn is_kernel<K: Fn(&[u32], &[u32]) -> u32>(kernel: K, dimension: u32) -> bool {
    &&& forall|a: &[u32], b: &[u32]|
        a@.len() == dimension && b@.len() == dimension ==> #[trigger] kernel.requires((a, b))
    &&& forall|a: &[u32], b: &[u32], r: u32, c: &[u32], d: &[u32], s: u32|
        #[trigger] kernel.ensures((a, b), r) && #[trigger] kernel.ensures((c, d), s) && a@ == c@
            && b@ == d@ ==> r == s
}

/// What a kernel returns for two vectors.
pub open spec fn distance<K: Fn(&[u32], &[u32]) -> u32>(kernel: K, p: Seq<u32>, q: Seq<u32>) -> u32 {
    choose|r: u32| is_distance(kernel, p, q, r)
}

/// Whether a kernel may return `r` for two vectors.
pub open spec fn is_distance<K: Fn(&[u32], &[u32]) -> u32>(
    kernel: K,
    p: Seq<u32>,
    q: Seq<u32>,
    r: u32,
) -> bool {
    exists|a: &[u32], b: &[u32]| a@ == p && b@ == q && #[trigger] kernel.ensures((a, b), r)
}

/// The distance of two vectors.
pub fn measure<K: Fn(&[u32], &[u32]) -> u32>(kernel: &K, a: &[u32], b: &[u32]) -> (d: u32)
    requires
        is_kernel(*kernel, a@.len() as u32),
        a@.len() == b@.len(),
        a@.len() <= u32::MAX,
    ensures
        d == distance(*kernel, a@, b@),
        kernel.ensures((a, b), d),
{
    let d: u32 = kernel(a, b);
    proof {
        assert(is_distance(*kernel, a@, b@, d));
    }
    d
}

/// The distance of two vectors is what the kernel returns for them, whenever it is
/// called.
pub proof fn distance_is_what_the_kernel_returns<K: Fn(&[u32], &[u32]) -> u32>(
    kernel: K,
    dimension: u32,
    a: &[u32],
    b: &[u32],
    r: u32,
)
    requires
        is_kernel(kernel, dimension),
        kernel.ensures((a, b), r),
    ensures
        distance(kernel, a@, b@) == r,
{
    assert(is_distance(kernel, a@, b@, r));
    let d = distance(kernel, a@, b@);
    assert(is_distance(kernel, a@, b@, d));
    let (x, y) = choose|x: &[u32], y: &[u32]|
        x@ == a@ && y@ == b@ && #[trigger] kernel.ensures((x, y), d);
    assert(kernel.ensures((a, b), r) && kernel.ensures((x, y), d));
}

} // verus!
