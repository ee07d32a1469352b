//! The dense N-dimensional array: a flat element buffer together with a
//! shape, per-axis strides and backstrides, and the two contiguity flags.
//! Strides are counted in scalar units, so one element is one stride unit.

use vstd::prelude::*;

use crate::errors::ArrayError;
use crate::math::{
    product, stride_at, strides_match, shape_pos, is_axis_permutation,
    lemma_product_pos, lemma_product_zero_entry, lemma_product_nonzero_entries,
    lemma_product_take_skip, lemma_product_skip_le, lemma_product_drop_last,
    lemma_product_skip_unfold, lemma_backstride_bound, lemma_product_permuted,
    sum_backstrides, lemma_sum_backstrides_permuted,
};
use vstd::arithmetic::mul::lemma_mul_left_inequality;

verus! {

/// The extent of one scalar element in stride units.
pub const ITEM_SIZE: usize = 1;

/// A dense array: `data` holds `totalsize` scalars flat; `shape`, `strides`
/// and `backstrides` describe how coordinates map into the buffer.
#[derive(Debug, Clone)]
pub struct Array<T> {
    pub data: Vec<T>,
    pub shape: Vec<usize>,
    pub strides: Vec<usize>,
    pub backstrides: Vec<usize>,
    pub ndim: usize,
    pub itemsize: usize,
    pub totalsize: usize,
    pub c_order: bool,
    pub f_order: bool,
}

impl<T> Array<T> {
    /// The structural invariant every array keeps: at least one axis, all
    /// extents positive, the buffer exactly `product(shape)` long, each
    /// backstride derived from its stride and extent, and the contiguity
    /// flags read off the strides.
    pub open spec fn wf(self) -> bool {
        &&& self.ndim >= 1
        &&& self.ndim == self.shape@.len()
        &&& self.strides@.len() == self.ndim
        &&& self.backstrides@.len() == self.ndim
        &&& shape_pos(self.shape@)
        &&& self.itemsize == ITEM_SIZE
        &&& self.totalsize as int == product(self.shape@)
        &&& self.data@.len() == self.totalsize
        &&& forall|i: int| 0 <= i < self.ndim ==>
            #[trigger] self.backstrides@[i] as int == self.strides@[i] * (self.shape@[i] - 1)
        &&& self.c_order == (self.strides@[self.ndim - 1] == self.itemsize)
        &&& self.f_order == (self.strides@[0] == self.itemsize)
    }
}

/// Everything but the buffer contents is the same in `a` and `b`.
pub open spec fn unchanged_layout<T>(a: Array<T>, b: Array<T>) -> bool {
    &&& b.shape@ == a.shape@
    &&& b.strides@ == a.strides@
    &&& b.backstrides@ == a.backstrides@
    &&& b.ndim == a.ndim
    &&& b.itemsize == a.itemsize
    &&& b.totalsize == a.totalsize
    &&& b.c_order == a.c_order
    &&& b.f_order == a.f_order
}

/// `a` and `b` agree on every field.
pub open spec fn same_state<T>(a: Array<T>, b: Array<T>) -> bool {
    &&& unchanged_layout(a, b)
    &&& b.data@ == a.data@
}

/// What a reshape to shape `s` leaves behind: the new shape with freshly
/// derived row-major strides, over the untouched buffer.
pub open spec fn reshape_post<T>(pre: Array<T>, post: Array<T>, s: Seq<usize>) -> bool {
    &&& post.shape@ == s
    &&& post.ndim == s.len()
    &&& post.data@ == pre.data@
    &&& post.totalsize == pre.totalsize
    &&& strides_match(post.shape@, post.strides@)
}

/// What a transpose along `axes` leaves behind: shape and strides permuted
/// in step, the buffer copied verbatim.
pub open spec fn transpose_post<T>(pre: Array<T>, post: Array<T>, axes: Seq<usize>) -> bool {
    &&& axes.len() == pre.ndim
    &&& post.ndim == pre.ndim
    &&& post.shape@.len() == pre.ndim
    &&& post.strides@.len() == pre.ndim
    &&& forall|i: int| 0 <= i < pre.ndim ==> #[trigger] post.shape@[i] == pre.shape@[axes[i] as int]
    &&& forall|i: int| 0 <= i < pre.ndim ==> #[trigger] post.strides@[i] == pre.strides@[axes[i] as int]
    &&& post.data@ == pre.data@
    &&& post.totalsize == pre.totalsize
}

/// The default transpose order: the axes reversed.
pub open spec fn rev_axes(n: int) -> Seq<usize> {
    Seq::new(n as nat, |i: int| (n - 1 - i) as usize)
}

/// The axis order a transpose call asks for: the given one, or the
/// reversal of all axes when none is given.
pub open spec fn requested_axes(axes: Option<&Vec<usize>>, n: int) -> Seq<usize> {
    match axes {
        Some(a) => a@,
        None => rev_axes(n),
    }
}

/// An exact copy of a vector of plain values.
pub(crate) fn copy_vec<U: Copy>(v: &Vec<U>) -> (r: Vec<U>)
    ensures
        r@ == v@,
{
    let mut r: Vec<U> = Vec::new();
    let mut i: usize = 0;
    while i < v.len()
        invariant
            i <= v@.len(),
            r@ == v@.take(i as int),
        decreases v@.len() - i,
    {
        r.push(v[i]);
        proof {
            assert(v@.take(i as int).push(v@[i as int]) =~= v@.take(i + 1));
        }
        i += 1;
    }
    proof {
        assert(v@.take(v@.len() as int) =~= v@);
    }
    r
}

/// A vector of `n` zeros, used as a placeholder before strides are derived.
fn usize_zeros(n: usize) -> (r: Vec<usize>)
    ensures
        r@.len() == n,
{
    let mut r: Vec<usize> = Vec::new();
    let mut i: usize = 0;
    while i < n
        invariant
            i <= n,
            r@.len() == i,
        decreases n - i,
    {
        r.push(0);
        i += 1;
    }
    r
}

/// The element count of a shape, or `None` when it exceeds the machine.
pub fn checked_product(shape: &Vec<usize>) -> (r: Option<usize>)
    ensures
        match r {
            Some(p) => p as int == product(shape@),
            None => product(shape@) > usize::MAX,
        },
{
    // A zero extent forces a zero product, whatever the other entries are.
    let mut i: usize = 0;
    while i < shape.len()
        invariant
            i <= shape@.len(),
            forall|j: int| 0 <= j < i ==> #[trigger] shape@[j] >= 1,
        decreases shape@.len() - i,
    {
        if shape[i] == 0 {
            proof {
                lemma_product_zero_entry(shape@, i as int);
            }
            return Some(0);
        }
        i += 1;
    }
    assert(shape_pos(shape@));
    let mut acc: usize = 1;
    let mut k: usize = 0;
    while k < shape.len()
        invariant
            k <= shape@.len(),
            shape_pos(shape@),
            acc as int == product(shape@.take(k as int)),
        decreases shape@.len() - k,
    {
        proof {
            assert(shape@.take(k + 1).drop_last() =~= shape@.take(k as int));
            assert(shape@.take(k + 1).last() == shape@[k as int]);
            lemma_product_drop_last(shape@.take(k + 1));
            lemma_product_take_skip(shape@, k + 1);
            assert(shape_pos(shape@.skip(k + 1)));
            assert(shape_pos(shape@.take(k + 1)));
            lemma_product_pos(shape@.skip(k + 1));
            lemma_product_pos(shape@.take(k + 1));
            lemma_mul_left_inequality(product(shape@.take(k + 1)), 1, product(shape@.skip(k + 1)));
        }
        match acc.checked_mul(shape[k]) {
            Some(v) => {
                acc = v;
            }
            None => {
                return None;
            }
        }
        k += 1;
    }
    proof {
        assert(shape@.take(shape@.len() as int) =~= shape@);
    }
    Some(acc)
}

impl<T: Copy> Array<T> {
    /// Derive row-major strides from the current shape: the innermost axis
    /// moves by one element, each outer axis by the whole span of the axes
    /// inside it.
    fn recalculate_strides(&mut self)
        requires
            old(self).ndim >= 1,
            old(self).ndim == old(self).shape@.len(),
            old(self).strides@.len() == old(self).ndim,
            shape_pos(old(self).shape@),
            product(old(self).shape@) <= usize::MAX,
        ensures
            strides_match(final(self).shape@, final(self).strides@),
            final(self).shape@ == old(self).shape@,
            final(self).data@ == old(self).data@,
            final(self).backstrides@ == old(self).backstrides@,
            final(self).ndim == old(self).ndim,
            final(self).itemsize == old(self).itemsize,
            final(self).totalsize == old(self).totalsize,
            final(self).c_order == old(self).c_order,
            final(self).f_order == old(self).f_order,
    {
        let n = self.ndim;
        self.strides[n - 1] = ITEM_SIZE;
        proof {
            assert(self.shape@.skip(n as int) =~= Seq::<usize>::empty());
            assert(stride_at(self.shape@, n - 1) == 1);
        }
        let mut i: usize = n - 1;
        while i > 0
            invariant
                0 <= i <= n - 1,
                n == self.ndim,
                n == self.shape@.len(),
                n >= 1,
                self.strides@.len() == n,
                shape_pos(self.shape@),
                product(self.shape@) <= usize::MAX,
                forall|j: int| i <= j < n ==> #[trigger] self.strides@[j] as int == stride_at(self.shape@, j),
                self.shape@ == old(self).shape@,
                self.data@ == old(self).data@,
                self.backstrides@ == old(self).backstrides@,
                self.ndim == old(self).ndim,
                self.itemsize == old(self).itemsize,
                self.totalsize == old(self).totalsize,
                self.c_order == old(self).c_order,
                self.f_order == old(self).f_order,
            decreases i,
        {
            proof {
                lemma_product_skip_unfold(self.shape@, i as int);
                lemma_product_skip_le(self.shape@, i as int);
                assert(self.strides@[i as int] as int == stride_at(self.shape@, i as int));
                assert(stride_at(self.shape@, i as int) == product(self.shape@.skip(i as int + 1)));
                vstd::arithmetic::mul::lemma_mul_is_commutative(
                    self.shape@[i as int] as int,
                    product(self.shape@.skip(i as int + 1)),
                );
                assert((self.strides@[i as int] as int) * (self.shape@[i as int] as int)
                    == product(self.shape@.skip(i as int)));
                assert(product(self.shape@.skip(i as int)) <= usize::MAX);
            }
            let v = self.strides[i] * self.shape[i];
            self.strides[i - 1] = v;
            proof {
                assert(stride_at(self.shape@, i - 1) == product(self.shape@.skip(i as int)));
                assert(self.strides@[i - 1] as int == stride_at(self.shape@, i - 1));
            }
            i -= 1;
        }
    }

    /// Derive each backstride from its stride and extent: the rewind that
    /// returns a traversal to the axis's origin.
    fn recalculate_backstrides(&mut self)
        requires
            old(self).ndim >= 1,
            old(self).ndim == old(self).shape@.len(),
            old(self).strides@.len() == old(self).ndim,
            old(self).backstrides@.len() == old(self).ndim,
            shape_pos(old(self).shape@),
            forall|i: int| 0 <= i < old(self).ndim ==>
                #[trigger] old(self).strides@[i] * (old(self).shape@[i] - 1) <= usize::MAX,
        ensures
            final(self).backstrides@.len() == final(self).ndim,
            forall|i: int| 0 <= i < final(self).ndim ==>
                #[trigger] final(self).backstrides@[i] as int
                    == final(self).strides@[i] * (final(self).shape@[i] - 1),
            final(self).shape@ == old(self).shape@,
            final(self).strides@ == old(self).strides@,
            final(self).data@ == old(self).data@,
            final(self).ndim == old(self).ndim,
            final(self).itemsize == old(self).itemsize,
            final(self).totalsize == old(self).totalsize,
            final(self).c_order == old(self).c_order,
            final(self).f_order == old(self).f_order,
    {
        let n = self.ndim;
        let mut i: usize = 0;
        while i < n
            invariant
                i <= n,
                n == self.ndim,
                n == self.shape@.len(),
                self.strides@.len() == n,
                self.backstrides@.len() == n,
                shape_pos(self.shape@),
                forall|j: int| 0 <= j < n ==>
                    #[trigger] self.strides@[j] * (self.shape@[j] - 1) <= usize::MAX,
                forall|j: int| 0 <= j < i ==>
                    #[trigger] self.backstrides@[j] as int == self.strides@[j] * (self.shape@[j] - 1),
                self.shape@ == old(self).shape@,
                self.strides@ == old(self).strides@,
                self.data@ == old(self).data@,
                self.ndim == old(self).ndim,
                self.itemsize == old(self).itemsize,
                self.totalsize == old(self).totalsize,
                self.c_order == old(self).c_order,
                self.f_order == old(self).f_order,
            decreases n - i,
        {
            let v = self.strides[i] * (self.shape[i] - 1);
            self.backstrides[i] = v;
            i += 1;
        }
    }

    /// Read the contiguity flags off the strides: C order when the
    /// innermost axis is one element apart, F order when the outermost is.
    fn set_array_flags(&mut self)
        requires
            old(self).ndim >= 1,
            old(self).strides@.len() == old(self).ndim,
        ensures
            final(self).c_order == (final(self).strides@[final(self).ndim - 1] == final(self).itemsize),
            final(self).f_order == (final(self).strides@[0] == final(self).itemsize),
            final(self).shape@ == old(self).shape@,
            final(self).strides@ == old(self).strides@,
            final(self).backstrides@ == old(self).backstrides@,
            final(self).data@ == old(self).data@,
            final(self).ndim == old(self).ndim,
            final(self).itemsize == old(self).itemsize,
            final(self).totalsize == old(self).totalsize,
    {
        self.c_order = self.strides[self.ndim - 1] == self.itemsize;
        self.f_order = self.strides[0] == self.itemsize;
    }

    /// Build a well-formed array around an already filled buffer.
    pub(crate) fn assemble(shape: &Vec<usize>, data: Vec<T>) -> (r: Array<T>)
        requires
            shape@.len() >= 1,
            shape_pos(shape@),
            product(shape@) <= usize::MAX,
            data@.len() == product(shape@),
        ensures
            r.wf(),
            r.shape@ == shape@,
            r.data@ == data@,
            strides_match(r.shape@, r.strides@),
            r.totalsize as int == product(shape@),
    {
        let n = shape.len();
        let total = data.len();
        let mut arr = Array {
            data,
            shape: copy_vec(shape),
            strides: usize_zeros(n),
            backstrides: usize_zeros(n),
            ndim: n,
            itemsize: ITEM_SIZE,
            totalsize: total,
            c_order: false,
            f_order: false,
        };
        arr.recalculate_strides();
        proof {
            assert forall|i: int| 0 <= i < arr.ndim implies
                #[trigger] arr.strides@[i] * (arr.shape@[i] - 1) <= usize::MAX by {
                lemma_backstride_bound(arr.shape@, i);
            }
        }
        arr.recalculate_backstrides();
        arr.set_array_flags();
        arr
    }

    /// A new array of the given shape with every element set to `fill`.
    pub fn new(shape: &Vec<usize>, fill: T) -> (r: Array<T>)
        requires
            shape@.len() >= 1,
            shape_pos(shape@),
            product(shape@) <= usize::MAX,
        ensures
            r.wf(),
            r.shape@ == shape@,
            strides_match(r.shape@, r.strides@),
            r.totalsize as int == product(shape@),
            r.data@.len() == r.totalsize,
            forall|i: int| 0 <= i < r.data@.len() ==> #[trigger] r.data@[i] == fill,
    {
        let total = match checked_product(shape) {
            Some(t) => t,
            None => vstd::pervasive::unreached(),
        };
        let mut data: Vec<T> = Vec::new();
        let mut i: usize = 0;
        while i < total
            invariant
                i <= total,
                data@.len() == i,
                forall|j: int| 0 <= j < i ==> #[trigger] data@[j] == fill,
            decreases total - i,
        {
            data.push(fill);
            i += 1;
        }
        Self::assemble(shape, data)
    }

    /// The shape as a fresh vector.
    pub fn shape_as_vec(&self) -> (r: Vec<usize>)
        ensures
            r@ == self.shape@,
    {
        copy_vec(&self.shape)
    }

    /// Replace the buffer with the given values; the count must equal the
    /// array's total size, and the shape is kept.
    pub fn from_values(&mut self, values: &Vec<T>) -> (r: Result<(), ArrayError>)
        requires
            old(self).wf(),
        ensures
            final(self).wf(),
            (r is Ok) <==> values@.len() == old(self).totalsize,
            match r {
                Ok(()) => {
                    &&& unchanged_layout(*old(self), *final(self))
                    &&& final(self).data@ == values@
                },
                Err(e) => {
                    &&& e == ArrayError::SizeMismatch
                    &&& same_state(*old(self), *final(self))
                },
            },
    {
        if values.len() != self.totalsize {
            return Err(ArrayError::SizeMismatch);
        }
        self.data = copy_vec(values);
        Ok(())
    }

    /// Refill every element from the supplied source; the shape and layout
    /// are untouched. Whatever the source may return, each element of the
    /// result is one of its possible outputs.
    pub fn fill_with<F: Fn() -> T>(&mut self, f: F)
        requires
            old(self).wf(),
            call_requires(f, ()),
        ensures
            final(self).wf(),
            unchanged_layout(*old(self), *final(self)),
            final(self).data@.len() == old(self).data@.len(),
            forall|i: int| 0 <= i < final(self).data@.len() ==>
                call_ensures(f, (), #[trigger] final(self).data@[i]),
    {
        let total = self.totalsize;
        let mut data: Vec<T> = Vec::new();
        let mut i: usize = 0;
        while i < total
            invariant
                i <= total,
                data@.len() == i,
                call_requires(f, ()),
                forall|j: int| 0 <= j < i ==> call_ensures(f, (), #[trigger] data@[j]),
            decreases total - i,
        {
            let v = f();
            data.push(v);
            i += 1;
        }
        self.data = data;
    }

    /// A one-dimensional array of `len` elements, element `i` produced by
    /// `f(i)`. An empty range is rejected.
    pub fn arrange_with<F: Fn(usize) -> T>(len: usize, f: F) -> (r: Result<Array<T>, ArrayError>)
        requires
            forall|i: usize| i < len ==> call_requires(f, (i,)),
        ensures
            (r is Ok) <==> len >= 1,
            match r {
                Ok(a) => {
                    &&& a.wf()
                    &&& a.shape@ == seq![len]
                    &&& a.totalsize == len
                    &&& strides_match(a.shape@, a.strides@)
                    &&& a.data@.len() == len
                    &&& forall|i: int| 0 <= i < len ==>
                        call_ensures(f, ((i as usize),), #[trigger] a.data@[i])
                },
                Err(e) => e == ArrayError::InvalidRangeArguments,
            },
    {
        if len == 0 {
            return Err(ArrayError::InvalidRangeArguments);
        }
        let mut shape: Vec<usize> = Vec::new();
        shape.push(len);
        proof {
            assert(shape@ =~= seq![len]);
            assert(shape@.drop_first() =~= Seq::<usize>::empty());
            assert(product(shape@) == len * product(Seq::<usize>::empty()));
        }
        let mut data: Vec<T> = Vec::new();
        let mut i: usize = 0;
        while i < len
            invariant
                i <= len,
                data@.len() == i,
                forall|k: usize| k < len ==> call_requires(f, (k,)),
                forall|j: int| 0 <= j < i ==> call_ensures(f, ((j as usize),), #[trigger] data@[j]),
            decreases len - i,
        {
            let v = f(i);
            data.push(v);
            i += 1;
        }
        Ok(Self::assemble(&shape, data))
    }

    /// Give the array a new shape over the same buffer. The new shape must
    /// account for exactly the same number of elements; otherwise nothing
    /// changes and the size mismatch is reported.
    pub fn reshape(&mut self, new_shape: &Vec<usize>) -> (r: Result<(), ArrayError>)
        requires
            old(self).wf(),
            new_shape@.len() >= 1,
        ensures
            final(self).wf(),
            (r is Ok) <==> product(new_shape@) == old(self).totalsize,
            match r {
                Ok(()) => reshape_post(*old(self), *final(self), new_shape@),
                Err(e) => {
                    &&& e == ArrayError::SizeMismatch
                    &&& same_state(*old(self), *final(self))
                },
            },
    {
        let matches_total = match checked_product(new_shape) {
            Some(p) => p == self.totalsize,
            None => false,
        };
        if !matches_total {
            return Err(ArrayError::SizeMismatch);
        }
        proof {
            lemma_product_pos(self.shape@);
            lemma_product_nonzero_entries(new_shape@);
        }
        self.shape = copy_vec(new_shape);
        self.ndim = new_shape.len();
        self.strides = usize_zeros(self.ndim);
        self.backstrides = usize_zeros(self.ndim);
        self.recalculate_strides();
        proof {
            assert forall|i: int| 0 <= i < self.ndim implies
                #[trigger] self.strides@[i] * (self.shape@[i] - 1) <= usize::MAX by {
                lemma_backstride_bound(self.shape@, i);
            }
        }
        self.recalculate_backstrides();
        self.set_array_flags();
        Ok(())
    }

    /// True exactly when the two arrays have identical shapes.
    pub fn check_shape_equal(&self, other: &Array<T>) -> (r: bool)
        ensures
            r <==> self.shape@ == other.shape@,
    {
        if self.shape.len() != other.shape.len() {
            proof {
                assert(self.shape@ != other.shape@);
            }
            return false;
        }
        let n = self.shape.len();
        let mut i: usize = 0;
        while i < n
            invariant
                i <= n,
                n == self.shape@.len(),
                n == other.shape@.len(),
                forall|j: int| 0 <= j < i ==> #[trigger] self.shape@[j] == other.shape@[j],
            decreases n - i,
        {
            if self.shape[i] != other.shape[i] {
                proof {
                    assert(self.shape@[i as int] != other.shape@[i as int]);
                }
                return false;
            }
            i += 1;
        }
        proof {
            assert(self.shape@ =~= other.shape@);
        }
        true
    }

    /// A copy of this array with its axes reordered by the given
    /// permutation, or reversed when none is given: shape and strides are
    /// permuted together, the buffer is copied as it is. A one-dimensional
    /// array transposes to a plain copy of itself. An axis list that is not
    /// a permutation of the axes is rejected.
    pub fn transpose(&self, axes: Option<&Vec<usize>>) -> (r: Option<Array<T>>)
        requires
            self.wf(),
        ensures
            (r is Some) <==> (self.ndim == 1 || axes is None
                || is_axis_permutation(requested_axes(axes, self.ndim as int), self.ndim as int)),
            match r {
                Some(out) => {
                    &&& out.wf()
                    &&& sum_backstrides(out.shape@, out.strides@)
                        == sum_backstrides(self.shape@, self.strides@)
                    &&& self.ndim == 1 ==> same_state(*self, out)
                    &&& self.ndim > 1 ==> transpose_post(*self, out, requested_axes(axes, self.ndim as int))
                    &&& (self.ndim > 1 && axes is None) ==>
                        forall|i: int| 0 <= i < self.ndim ==>
                            #[trigger] out.shape@[i] == self.shape@[self.ndim - 1 - i]
                },
                None => true,
            },
    {
        let n = self.ndim;
        if n == 1 {
            return Some(Array {
                data: copy_vec(&self.data),
                shape: copy_vec(&self.shape),
                strides: copy_vec(&self.strides),
                backstrides: copy_vec(&self.backstrides),
                ndim: self.ndim,
                itemsize: self.itemsize,
                totalsize: self.totalsize,
                c_order: self.c_order,
                f_order: self.f_order,
            });
        }
        let ax: Vec<usize> = match axes {
            Some(a) => {
                if !is_permutation_check(a, n) {
                    return None;
                }
                copy_vec(a)
            }
            None => reversed_axes(n),
        };
        proof {
            assert(ax@ == requested_axes(axes, n as int));
        }
        let mut new_shape: Vec<usize> = Vec::new();
        let mut new_strides: Vec<usize> = Vec::new();
        let mut i: usize = 0;
        while i < n
            invariant
                i <= n,
                n == self.ndim,
                self.wf(),
                ax@.len() == n,
                is_axis_permutation(ax@, n as int),
                new_shape@.len() == i,
                new_strides@.len() == i,
                forall|j: int| 0 <= j < i ==> #[trigger] new_shape@[j] == self.shape@[ax@[j] as int],
                forall|j: int| 0 <= j < i ==> #[trigger] new_strides@[j] == self.strides@[ax@[j] as int],
            decreases n - i,
        {
            let a = ax[i];
            new_shape.push(self.shape[a]);
            new_strides.push(self.strides[a]);
            i += 1;
        }
        let mut out = Array {
            data: copy_vec(&self.data),
            shape: new_shape,
            strides: new_strides,
            backstrides: usize_zeros(n),
            ndim: n,
            itemsize: self.itemsize,
            totalsize: self.totalsize,
            c_order: false,
            f_order: false,
        };
        proof {
            lemma_product_permuted(self.shape@, out.shape@, ax@);
            assert(shape_pos(out.shape@));
            assert forall|j: int| 0 <= j < out.ndim implies
                #[trigger] out.strides@[j] * (out.shape@[j] - 1) <= usize::MAX by {
                let a = ax@[j] as int;
                assert(self.backstrides@[a] as int == self.strides@[a] * (self.shape@[a] - 1));
            }
        }
        out.recalculate_backstrides();
        out.set_array_flags();
        proof {
            lemma_sum_backstrides_permuted(self.shape@, self.strides@, out.shape@, out.strides@, ax@);
        }
        Some(out)
    }
}

/// The reversal of the axis numbers `0 .. n`, the default transpose order.
fn reversed_axes(n: usize) -> (r: Vec<usize>)
    requires
        n >= 1,
    ensures
        r@ == rev_axes(n as int),
        is_axis_permutation(r@, n as int),
{
    let mut r: Vec<usize> = Vec::new();
    let mut i: usize = 0;
    while i < n
        invariant
            i <= n,
            r@.len() == i,
            forall|j: int| 0 <= j < i ==> #[trigger] r@[j] == (n - 1 - j) as usize,
        decreases n - i,
    {
        r.push(n - 1 - i);
        i += 1;
    }
    proof {
        assert(r@ =~= rev_axes(n as int));
        assert forall|v: usize| v < n implies #[trigger] r@.contains(v) by {
            assert(r@[n - 1 - v as int] == v);
        }
    }
    r
}

/// True exactly when `a` lists each axis number below `n` once.
fn is_permutation_check(a: &Vec<usize>, n: usize) -> (r: bool)
    requires
        n >= 1,
    ensures
        r <==> is_axis_permutation(a@, n as int),
{
    if a.len() != n {
        return false;
    }
    let mut seen = bool_falses(n);
    let mut i: usize = 0;
    while i < n
        invariant
            i <= n,
            a@.len() == n,
            seen@.len() == n,
            forall|v: int| 0 <= v < n ==>
                (#[trigger] seen@[v] <==> exists|j: int| 0 <= j < i && a@[j] == v),
            forall|j: int| 0 <= j < i ==> #[trigger] a@[j] < n,
            forall|j: int, k: int| 0 <= j < i && 0 <= k < i && j != k ==> a@[j] != a@[k],
        decreases n - i,
    {
        let v = a[i];
        if v >= n {
            proof {
                assert(!is_axis_permutation(a@, n as int));
            }
            return false;
        }
        if seen[v] {
            proof {
                let j = choose|j: int| 0 <= j < i && a@[j] == v as int;
                assert(a@[j] == a@[i as int]);
                assert(!is_axis_permutation(a@, n as int));
            }
            return false;
        }
        seen[v] = true;
        proof {
            assert forall|w: int| 0 <= w < n implies
                (#[trigger] seen@[w] <==> exists|j: int| 0 <= j < i + 1 && a@[j] == w) by {
                if w == v as int {
                    assert(a@[i as int] == w);
                } else {
                    if exists|j: int| 0 <= j < i + 1 && a@[j] == w {
                        let j = choose|j: int| 0 <= j < i + 1 && a@[j] == w;
                        assert(j < i);
                        assert(exists|j2: int| 0 <= j2 < i && a@[j2] == w);
                    }
                }
            }
        }
        i += 1;
    }
    // every axis must have been seen; an unseen one is missing from `a`
    let mut v: usize = 0;
    while v < n
        invariant
            v <= n,
            a@.len() == n,
            seen@.len() == n,
            forall|w: int| 0 <= w < n ==>
                (#[trigger] seen@[w] <==> exists|j: int| 0 <= j < n && a@[j] == w),
            forall|j: int| 0 <= j < n ==> #[trigger] a@[j] < n,
            forall|j: int, k: int| 0 <= j < n && 0 <= k < n && j != k ==> a@[j] != a@[k],
            forall|w: usize| w < v ==> #[trigger] a@.contains(w),
        decreases n - v,
    {
        if !seen[v] {
            proof {
                assert(!a@.contains(v)) by {
                    if a@.contains(v) {
                        let j = choose|j: int| 0 <= j < a@.len() && a@[j] == v;
                        assert(seen@[v as int]);
                    }
                }
                assert(!is_axis_permutation(a@, n as int));
            }
            return false;
        }
        proof {
            let j = choose|j: int| 0 <= j < n && a@[j] == v as int;
            assert(a@.contains(v));
        }
        v += 1;
    }
    true
}

/// A vector of `n` false flags.
fn bool_falses(n: usize) -> (r: Vec<bool>)
    ensures
        r@.len() == n,
        forall|i: int| 0 <= i < n ==> !(#[trigger] r@[i]),
{
    let mut r: Vec<bool> = Vec::new();
    let mut i: usize = 0;
    while i < n
        invariant
            i <= n,
            r@.len() == i,
            forall|j: int| 0 <= j < i ==> !(#[trigger] r@[j]),
        decreases n - i,
    {
        r.push(false);
        i += 1;
    }
    r
}

/// Reshaping keeps the element count and the buffer order, and reshaping
/// back to the original shape restores it, with the data identical.
pub proof fn lemma_reshape_round_trip<T>(a0: Array<T>, a1: Array<T>, a2: Array<T>, s: Seq<usize>)
    requires
        reshape_post(a0, a1, s),
        reshape_post(a1, a2, a0.shape@),
    ensures
        a2.shape@ == a0.shape@,
        a2.data@ == a0.data@,
        a2.totalsize == a0.totalsize,
{
}

/// Transposing along a permutation and then along its inverse restores the
/// original shape and strides, over the same buffer.
pub proof fn lemma_transpose_round_trip<T>(
    a0: Array<T>,
    a1: Array<T>,
    a2: Array<T>,
    axes: Seq<usize>,
    inv: Seq<usize>,
)
    requires
        a0.ndim >= 1,
        a0.ndim == a0.shape@.len(),
        a0.strides@.len() == a0.ndim,
        is_axis_permutation(axes, a0.ndim as int),
        inv.len() == a0.ndim,
        forall|i: int| 0 <= i < a0.ndim ==> #[trigger] inv[i] < a0.ndim,
        forall|i: int| 0 <= i < a0.ndim ==> #[trigger] inv[axes[i] as int] as int == i,
        transpose_post(a0, a1, axes),
        transpose_post(a1, a2, inv),
    ensures
        a2.shape@ == a0.shape@,
        a2.strides@ == a0.strides@,
        a2.data@ == a0.data@,
{
    assert forall|i: int| 0 <= i < a0.ndim implies
        a2.shape@[i] == a0.shape@[i] && a2.strides@[i] == a0.strides@[i] by {
        assert(axes.contains(i as usize));
        let j = choose|j: int| 0 <= j < axes.len() && axes[j] == i as usize;
        assert(inv[axes[j] as int] as int == j);
        assert(inv[i] as int == j);
        assert(a2.shape@[i] == a1.shape@[inv[i] as int]);
        assert(a1.shape@[j] == a0.shape@[axes[j] as int]);
        assert(a2.strides@[i] == a1.strides@[inv[i] as int]);
        assert(a1.strides@[j] == a0.strides@[axes[j] as int]);
    }
    assert(a2.shape@ =~= a0.shape@);
    assert(a2.strides@ =~= a0.strides@);
}

} // verus!
