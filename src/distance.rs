use vstd::prelude::*;

verus! {

/// A distance between two vectors of equal length.
pub trait Distance<T> {
    /// The distance between `a` and `b`.
    spec fn spec_dist(&self, a: Seq<T>, b: Seq<T>) -> u128;

    fn call(&self, a: &[T], b: &[T]) -> (r: u128)
        requires
            a@.len() == b@.len(),
        ensures
            r == self.spec_dist(a@, b@),
    ;
}

/// Squared Euclidean distance: the sum over coordinates of the squared difference.
pub open spec fn squared_euclidean(a: Seq<i32>, b: Seq<i32>) -> int
    decreases a.len(),
{
    if a.len() == 0 || b.len() == 0 {
        0
    } else {
        let d = a.last() - b.last();
        squared_euclidean(a.drop_last(), b.drop_last()) + d * d
    }
}

/// The largest square of a difference of two `i32` values is below this bound.
pub open spec fn square_bound() -> int {
    0x1_0000_0000_0000_0000
}

proof fn lemma_squared_euclidean_bounds(a: Seq<i32>, b: Seq<i32>)
    requires
        a.len() == b.len(),
    ensures
        0 <= squared_euclidean(a, b) <= a.len() * square_bound(),
    decreases a.len(),
{
    if a.len() > 0 {
        lemma_squared_euclidean_bounds(a.drop_last(), b.drop_last());
        let d = a.last() - b.last();
        assert(0 <= d * d < square_bound()) by (nonlinear_arith)
            requires -0x1_0000_0000 < d < 0x1_0000_0000;
        assert((a.len() - 1) * square_bound() + square_bound() == a.len() * square_bound())
            by (nonlinear_arith);
    }
}

/// Euclidean distance over integer vectors, reported squared: the order it induces is that of
/// the Euclidean distance, and it is exact.
pub struct EuclideanDistance;

impl Distance<i32> for EuclideanDistance {
    open spec fn spec_dist(&self, a: Seq<i32>, b: Seq<i32>) -> u128 {
        squared_euclidean(a, b) as u128
    }

    fn call(&self, a: &[i32], b: &[i32]) -> (r: u128) {
        let n = a.len();
        let mut acc: u128 = 0;
        let mut i: usize = 0;
        while i < n
            invariant
                n == a@.len(),
                a@.len() == b@.len(),
                i <= n,
                acc as int == squared_euclidean(a@.subrange(0, i as int), b@.subrange(0, i as int)),
            decreases n - i,
        {
            let d: i128 = a[i] as i128 - b[i] as i128;
            proof {
                let sa = a@.subrange(0, i + 1);
                let sb = b@.subrange(0, i + 1);
                assert(sa.drop_last() =~= a@.subrange(0, i as int));
                assert(sb.drop_last() =~= b@.subrange(0, i as int));
                lemma_squared_euclidean_bounds(sa, sb);
                assert(0 <= d * d < square_bound()) by (nonlinear_arith)
                    requires -0x1_0000_0000 < d < 0x1_0000_0000;
                assert((i + 1) * square_bound() <= 0x1_0000_0000_0000_0000 * square_bound())
                    by (nonlinear_arith)
                    requires i + 1 <= 0x1_0000_0000_0000_0000;
            }
            let sq: u128 = (d * d) as u128;
            acc = acc + sq;
            i = i + 1;
        }
        assert(a@.subrange(0, n as int) =~= a@);
        assert(b@.subrange(0, n as int) =~= b@);
        acc
    }
}

} // verus!
