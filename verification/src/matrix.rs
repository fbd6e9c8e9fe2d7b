//! Dense row-major matrices of field elements, used for the main trace and
//! the auxiliary (permutation) trace.

use vstd::arithmetic::div_mod::lemma_fundamental_div_mod;
use vstd::arithmetic::mul::{lemma_mul_inequality, lemma_mul_is_commutative};
use vstd::prelude::*;

verus! {

/// A row-major matrix: `values[n * width + j]` is the entry in row `n`,
/// column `j`.
pub struct RowMajorMatrix {
    pub values: Vec<u64>,
    pub width: usize,
}

impl RowMajorMatrix {
    /// The flat buffer splits evenly into rows.
    pub open spec fn wf(self) -> bool {
        &&& 1 <= self.width
        &&& self.values@.len() % self.width as nat == 0
    }

    pub open spec fn height_spec(self) -> nat {
        self.values@.len() / self.width as nat
    }

    /// Row `n` as a sequence of `width` entries.
    pub open spec fn row_spec(self, n: int) -> Seq<u64> {
        self.values@.subrange(n * self.width, n * self.width + self.width)
    }

    /// Every entry is a reduced field element.
    pub open spec fn bounded(self, p: int) -> bool {
        forall|i: int| 0 <= i < self.values@.len() ==> (#[trigger] self.values@[i]) < p
    }

    /// The row length times the height covers the whole buffer.
    pub proof fn lemma_size(self)
        requires
            self.wf(),
        ensures
            self.values@.len() == self.height_spec() * self.width as nat,
    {
        lemma_fundamental_div_mod(self.values@.len() as int, self.width as int);
        lemma_mul_is_commutative(self.width as int, self.height_spec() as int);
    }

    pub fn new(values: Vec<u64>, width: usize) -> (m: RowMajorMatrix)
        requires
            1 <= width,
            values@.len() % width as nat == 0,
        ensures
            m.wf(),
            m.values@ == values@,
            m.width == width,
    {
        RowMajorMatrix { values, width }
    }

    pub fn height(&self) -> (h: usize)
        requires
            self.wf(),
        ensures
            h as nat == self.height_spec(),
    {
        self.values.len() / self.width
    }

    pub fn width(&self) -> (w: usize)
        ensures
            w == self.width,
    {
        self.width
    }

    /// Copy row `n` out of the flat buffer.
    pub fn row(&self, n: usize) -> (r: Vec<u64>)
        requires
            self.wf(),
            n < self.height_spec(),
        ensures
            r@ == self.row_spec(n as int),
    {
        let len = self.values.len();
        proof {
            self.lemma_size();
            lemma_mul_inequality(n as int + 1, self.height_spec() as int, self.width as int);
            lemma_mul_is_commutative(n as int + 1, self.width as int);
            lemma_mul_is_commutative(n as int, self.width as int);
            vstd::arithmetic::mul::lemma_mul_is_distributive_add_other_way(
                self.width as int,
                n as int,
                1,
            );
            vstd::arithmetic::mul::lemma_mul_nonnegative(n as int, self.width as int);
        }
        let base = n * self.width;
        let mut r: Vec<u64> = Vec::new();
        proof {
            assert(r@ =~= self.values@.subrange(base as int, base as int));
        }
        let mut j: usize = 0;
        while j < self.width
            invariant
                j <= self.width,
                base == n as int * self.width as int,
                base + self.width <= self.values@.len(),
                self.values@.len() <= usize::MAX,
                r@ == self.values@.subrange(base as int, base as int + j as int),
            decreases self.width - j,
        {
            r.push(self.values[base + j]);
            proof {
                assert(self.values@.subrange(base as int, base + j + 1) =~= self.values@.subrange(
                    base as int,
                    base as int + j as int,
                ).push(self.values@[base + j]));
            }
            j = j + 1;
        }
        r
    }
}

} // verus!
