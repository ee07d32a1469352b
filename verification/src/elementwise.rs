//! Elementwise combination of arrays: the same-shape primitive, the
//! broadcasting dispatcher that aligns differing shapes first, and the
//! in-place unary map. The scalar operation itself is a caller-supplied
//! closure; the contracts relate every result element to one call of it.

use vstd::prelude::*;

use crate::array::{Array, copy_vec, unchanged_layout};
use crate::broadcast::{broadcast_compatible, broadcast_shape, lemma_equal_shapes_broadcast, lemma_broadcast_shape_pos};
use crate::errors::ArrayError;
use crate::math::{product, strides_match, lemma_product_pos};
use vstd::arithmetic::div_mod::lemma_small_mod;

verus! {

impl<T: Copy> Array<T> {
    /// Combine two arrays of identical shape position by position: element
    /// `i` of the result is `op` applied to the elements `i` of the two
    /// operands. Differing shapes are reported as a shape mismatch.
    pub fn elementwise_op<F: Fn(T, T) -> T>(&self, other: &Array<T>, op: &F) -> (r: Result<
        Array<T>,
        ArrayError,
    >)
        requires
            self.wf(),
            other.wf(),
            forall|i: int| 0 <= i < self.data@.len() && i < other.data@.len() ==>
                call_requires(*op, (#[trigger] self.data@[i], other.data@[i])),
        ensures
            (r is Ok) <==> self.shape@ == other.shape@,
            match r {
                Ok(out) => {
                    &&& out.wf()
                    &&& unchanged_layout(*self, out)
                    &&& out.data@.len() == self.data@.len()
                    &&& forall|i: int| 0 <= i < out.data@.len() ==>
                        call_ensures(*op, (self.data@[i], other.data@[i]), #[trigger] out.data@[i])
                },
                Err(e) => e == ArrayError::ShapeMismatch,
            },
    {
        if !self.check_shape_equal(other) {
            return Err(ArrayError::ShapeMismatch);
        }
        proof {
            assert(other.totalsize == self.totalsize);
        }
        let total = self.totalsize;
        let mut data: Vec<T> = Vec::new();
        let mut i: usize = 0;
        while i < total
            invariant
                i <= total,
                data@.len() == i,
                self.wf(),
                other.wf(),
                self.data@.len() == total,
                other.data@.len() == total,
                forall|j: int| 0 <= j < total ==>
                    call_requires(*op, (#[trigger] self.data@[j], other.data@[j])),
                forall|j: int| 0 <= j < i ==>
                    call_ensures(*op, (self.data@[j], other.data@[j]), #[trigger] data@[j]),
            decreases total - i,
        {
            let v = op(self.data[i], other.data[i]);
            data.push(v);
            i += 1;
        }
        Ok(Array {
            data,
            shape: copy_vec(&self.shape),
            strides: copy_vec(&self.strides),
            backstrides: copy_vec(&self.backstrides),
            ndim: self.ndim,
            itemsize: self.itemsize,
            totalsize: self.totalsize,
            c_order: self.c_order,
            f_order: self.f_order,
        })
    }

    /// Combine two arrays under broadcasting: equal shapes are combined
    /// directly; otherwise both operands are materialized into their
    /// broadcast shape first. Element `i` of the result is `op` applied to
    /// element `i` of each materialized operand, that is to the operands'
    /// elements `i` modulo their total sizes. Shapes that do not broadcast
    /// together are reported, with both operands left untouched.
    pub fn broadcast_op<F: Fn(T, T) -> T>(&self, other: &Array<T>, op: &F) -> (r: Result<
        Array<T>,
        ArrayError,
    >)
        requires
            self.wf(),
            other.wf(),
            forall|x: T, y: T| call_requires(*op, (x, y)),
            broadcast_compatible(self.shape@, other.shape@) ==>
                product(broadcast_shape(self.shape@, other.shape@)) <= usize::MAX,
        ensures
            (r is Ok) <==> broadcast_compatible(self.shape@, other.shape@),
            match r {
                Ok(out) => {
                    &&& out.wf()
                    &&& out.shape@ == broadcast_shape(self.shape@, other.shape@)
                    &&& out.totalsize as int == product(broadcast_shape(self.shape@, other.shape@))
                    &&& self.shape@ == other.shape@ ==> unchanged_layout(*self, out)
                    &&& self.shape@ != other.shape@ ==> strides_match(out.shape@, out.strides@)
                    &&& forall|i: int| 0 <= i < out.totalsize ==>
                        call_ensures(
                            *op,
                            (
                                self.data@[i % (self.totalsize as int)],
                                other.data@[i % (other.totalsize as int)],
                            ),
                            #[trigger] out.data@[i],
                        )
                },
                Err(e) => e == ArrayError::BroadcastIncompatible,
            },
    {
        if self.check_shape_equal(other) {
            proof {
                lemma_equal_shapes_broadcast(self.shape@, other.shape@);
            }
            let out = match self.elementwise_op(other, op) {
                Ok(o) => o,
                Err(_) => vstd::pervasive::unreached(),
            };
            proof {
                lemma_product_pos(self.shape@);
                assert forall|i: int| 0 <= i < out.totalsize implies
                    call_ensures(
                        *op,
                        (
                            self.data@[i % (self.totalsize as int)],
                            other.data@[i % (other.totalsize as int)],
                        ),
                        #[trigger] out.data@[i],
                    ) by {
                    lemma_small_mod(i as nat, self.totalsize as nat);
                    lemma_small_mod(i as nat, other.totalsize as nat);
                }
            }
            return Ok(out);
        }
        let res_shape = match self.final_shape(other) {
            Some(v) => v,
            None => {
                return Err(ArrayError::BroadcastIncompatible);
            },
        };
        proof {
            lemma_broadcast_shape_pos(self.shape@, other.shape@);
            assert(res_shape@.len() >= self.ndim >= 1);
        }
        let a_final = self.broadcast(&res_shape);
        let b_final = other.broadcast(&res_shape);
        let out = match a_final.elementwise_op(&b_final, op) {
            Ok(o) => o,
            Err(_) => vstd::pervasive::unreached(),
        };
        Ok(out)
    }

    /// Map every element of the buffer through `func`, in place; the shape
    /// and layout are untouched.
    pub fn apply_inplace<F: Fn(T) -> T>(&mut self, func: &F)
        requires
            old(self).wf(),
            forall|i: int| 0 <= i < old(self).data@.len() ==>
                call_requires(*func, (#[trigger] old(self).data@[i],)),
        ensures
            final(self).wf(),
            unchanged_layout(*old(self), *final(self)),
            final(self).data@.len() == old(self).data@.len(),
            forall|i: int| 0 <= i < final(self).data@.len() ==>
                call_ensures(*func, (old(self).data@[i],), #[trigger] final(self).data@[i]),
    {
        let total = self.totalsize;
        let mut i: usize = 0;
        while i < total
            invariant
                i <= total,
                self.wf(),
                self.data@.len() == total,
                unchanged_layout(*old(self), *self),
                forall|j: int| 0 <= j < total ==>
                    call_requires(*func, (#[trigger] old(self).data@[j],)),
                forall|j: int| i <= j < total ==> self.data@[j] == old(self).data@[j],
                forall|j: int| 0 <= j < i ==>
                    call_ensures(*func, (old(self).data@[j],), #[trigger] self.data@[j]),
            decreases total - i,
        {
            let v = func(self.data[i]);
            self.data[i] = v;
            i += 1;
        }
    }
}

} // verus!
