//! `-a`, `a * b` and `a + b` on references to matrices, each giving a new
//! matrix.

use vstd::prelude::*;
use crate::poly::{PolyMatrix, PolyMatrixRaw, PolyMatrixNTT, cell_words};
use crate::cell_ops::{add_cell, neg_cell};
use crate::matrix_ops::{product_cell, multiply, invert};

verus! {

impl<'a, 'b> core::ops::Neg for &'b PolyMatrixRaw<'a> {
    type Output = PolyMatrixRaw<'a>;

    /// The additive inverse of a matrix of coefficients.
    fn neg(self) -> (out: PolyMatrixRaw<'a>)
        ensures
            out@.wf(),
            out@.same_shape(self@),
            out@.reduced(),
            forall|i: int, j: int|
                0 <= i < self@.rows && 0 <= j < self@.cols ==> #[trigger] out@.poly(i, j)
                    == neg_cell(&self@.params, self@.poly(i, j)),
    {
        // a buffer is no longer than a machine word can count
        let _len: usize = self.data.len();
        let mut out = PolyMatrixRaw::zero(self.params, self.rows, self.cols);
        invert(&mut out, self);
        out
    }
}

/// What `-a` asks of `a`. The result is stated by `neg` itself, not through
/// `neg_spec`.
impl<'a, 'b> vstd::std_specs::ops::NegSpecImpl for &'b PolyMatrixRaw<'a> {
    open spec fn obeys_neg_spec() -> bool {
        false
    }

    open spec fn neg_req(self) -> bool {
        self@.wf()
    }

    open spec fn neg_spec(self) -> PolyMatrixRaw<'a> {
        *self
    }
}

impl<'a, 'b> core::ops::Mul for &'b PolyMatrixNTT<'a> {
    type Output = PolyMatrixNTT<'a>;

    /// The matrix product of two transformed matrices.
    fn mul(self, rhs: &'b PolyMatrixNTT<'a>) -> (out: PolyMatrixNTT<'a>)
        ensures
            out@.wf(),
            out@.params == self@.params,
            out@.rows == self@.rows,
            out@.cols == rhs@.cols,
            out@.reduced(),
            forall|i: int, j: int|
                0 <= i < self@.rows && 0 <= j < rhs@.cols ==> #[trigger] out@.poly(i, j)
                    == product_cell(self@, rhs@, i, j),
    {
        let mut out = PolyMatrixNTT::zero(self.params, self.rows, rhs.cols);
        multiply(&mut out, self, rhs);
        out
    }
}

/// What `a * b` asks of `a` and `b`. The result is stated by `mul` itself,
/// not through `mul_spec`.
impl<'a, 'b> vstd::std_specs::ops::MulSpecImpl for &'b PolyMatrixNTT<'a> {
    open spec fn obeys_mul_spec() -> bool {
        false
    }

    open spec fn mul_req(self, rhs: &'b PolyMatrixNTT<'a>) -> bool {
        &&& self@.wf()
        &&& rhs@.wf()
        &&& self@.params == rhs@.params
        &&& self@.cols == rhs@.rows
        &&& self@.rows * rhs@.cols * cell_words(&self@.params, true) <= usize::MAX
    }

    open spec fn mul_spec(self, rhs: &'b PolyMatrixNTT<'a>) -> PolyMatrixNTT<'a> {
        *self
    }
}

impl<'a, 'b> core::ops::Add for &'b PolyMatrixNTT<'a> {
    type Output = PolyMatrixNTT<'a>;

    /// The sum of two transformed matrices.
    fn add(self, rhs: &'b PolyMatrixNTT<'a>) -> (out: PolyMatrixNTT<'a>)
        ensures
            out@.wf(),
            out@.same_shape(self@),
            out@.reduced(),
            forall|i: int, j: int|
                0 <= i < self@.rows && 0 <= j < self@.cols ==> #[trigger] out@.poly(i, j)
                    == add_cell(&self@.params, self@.poly(i, j), rhs@.poly(i, j)),
    {
        // a buffer is no longer than a machine word can count
        let _len: usize = self.data.len();
        let mut out = PolyMatrixNTT::zero(self.params, self.rows, self.cols);
        crate::matrix_ops::add(&mut out, self, rhs);
        out
    }
}

/// What `a + b` asks of `a` and `b`. The result is stated by `add` itself,
/// not through `add_spec`.
impl<'a, 'b> vstd::std_specs::ops::AddSpecImpl for &'b PolyMatrixNTT<'a> {
    open spec fn obeys_add_spec() -> bool {
        false
    }

    open spec fn add_req(self, rhs: &'b PolyMatrixNTT<'a>) -> bool {
        &&& self@.wf()
        &&& rhs@.wf()
        &&& self@.same_shape(rhs@)
    }

    open spec fn add_spec(self, rhs: &'b PolyMatrixNTT<'a>) -> PolyMatrixNTT<'a> {
        *self
    }
}

} // verus!
