//! Committed batches of polynomials.
use vstd::arithmetic::power2::pow2;
use vstd::prelude::*;
use crate::util::{lemma_reversed_bound, reverse_bits, reversed};

verus! {

/// A batch of polynomials that has been committed to: its low-degree extension, one row for each
/// point of the extended domain, and the commitment.
pub struct PolynomialBatch<F, C> {
    /// The rows of the extension, in bit-reversed order of the points. A row holds the values of
    /// all polynomials at its point, followed by the blinding values.
    pub leaves: Vec<Vec<F>>,
    /// The commitment to the rows.
    pub cap: C,
    /// The binary logarithm of the degree bound of the polynomials.
    pub degree_log: usize,
    /// The binary logarithm of the factor by which the domain is extended.
    pub rate_bits: usize,
    /// The number of values at the end of each row that blind it.
    pub salt_size: usize,
}

impl<F: Copy, C> PolynomialBatch<F, C> {
    /// There is one row for each point of the domain, with values of `width` polynomials.
    pub open spec fn wf(self, width: nat) -> bool {
        &&& self.leaves@.len() == pow2((self.degree_log + self.rate_bits) as nat)
        &&& forall|i: int|
            0 <= i < self.leaves@.len() ==> (#[trigger] self.leaves@[i]).len() == width
                + self.salt_size
    }

    /// The values of the polynomials at the point with the index `index * step`.
    pub open spec fn lde_row(self, index: int, step: int) -> Seq<F> {
        let leaf = self.leaves@[reversed(
            (index * step) as nat,
            (self.degree_log + self.rate_bits) as nat,
        ) as int]@;
        leaf.take(leaf.len() - self.salt_size)
    }

    /// Returns the values of the polynomials at the point with the index `index * step`.
    pub fn get_lde_values(&self, index: usize, step: usize) -> (r: &[F])
        requires
            exists|width: nat| self.wf(width),
            index * step < self.leaves@.len(),
        ensures
            r@ == self.lde_row(index as int, step as int),
            forall|width: nat| #[trigger] self.wf(width) ==> r@.len() == width,
    {
        let ghost width = choose|width: nat| self.wf(width);
        let n: usize = self.leaves.len();
        proof {
            assert(0 <= index * step) by (nonlinear_arith);
            assert(self.degree_log + self.rate_bits <= usize::MAX) by {
                let k = (self.degree_log + self.rate_bits) as nat;
                crate::util::lemma_pow2_fits(k);
            }
            lemma_reversed_bound(
                (index * step) as nat,
                (self.degree_log + self.rate_bits) as nat,
            );
        }
        let i: usize = reverse_bits(index * step, self.degree_log + self.rate_bits);
        let leaf: &Vec<F> = &self.leaves[i];
        vstd::slice::slice_subrange(leaf.as_slice(), 0, leaf.len() - self.salt_size)
    }
}

} // verus!
