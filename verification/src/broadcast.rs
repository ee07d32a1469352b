//! Shape broadcasting: deciding whether two shapes align under the
//! right-aligned trailing-axis rule, and materializing an array into a
//! broadcast target shape by repeating its buffer.

use vstd::prelude::*;

use crate::array::{Array, checked_product};
use crate::math::{product, strides_match, shape_pos, lemma_product_pos};

verus! {

/// The number of axes of the broadcast result: the larger of the two.
pub open spec fn out_ndim(a: Seq<usize>, b: Seq<usize>) -> int {
    if a.len() >= b.len() {
        a.len() as int
    } else {
        b.len() as int
    }
}

/// The extent shape `s` shows at aligned position `i` once right-aligned
/// into `n` axes: its own extent on the right, an implicit 1 on the left.
pub open spec fn padded_extent(s: Seq<usize>, n: int, i: int) -> int {
    if i < n - s.len() {
        1
    } else {
        s[i - (n - s.len())] as int
    }
}

/// Two shapes broadcast together when, at every right-aligned position,
/// the extents are equal or at least one of them is 1.
pub open spec fn broadcast_compatible(a: Seq<usize>, b: Seq<usize>) -> bool {
    forall|i: int| 0 <= i < out_ndim(a, b) ==> {
        let pa = #[trigger] padded_extent(a, out_ndim(a, b), i);
        let pb = padded_extent(b, out_ndim(a, b), i);
        pa == pb || pa == 1 || pb == 1
    }
}

/// The broadcast result shape: at each aligned position the larger of the
/// two extents.
pub open spec fn broadcast_shape(a: Seq<usize>, b: Seq<usize>) -> Seq<usize> {
    Seq::new(out_ndim(a, b) as nat, |i: int| {
        let pa = padded_extent(a, out_ndim(a, b), i);
        let pb = padded_extent(b, out_ndim(a, b), i);
        if pa >= pb { pa as usize } else { pb as usize }
    })
}

/// Identical shapes are broadcast-compatible, and broadcast to themselves.
pub proof fn lemma_equal_shapes_broadcast(a: Seq<usize>, b: Seq<usize>)
    requires
        a == b,
    ensures
        broadcast_compatible(a, b),
        broadcast_shape(a, b) == a,
{
    assert forall|i: int| 0 <= i < out_ndim(a, b) implies
        #[trigger] broadcast_shape(a, b)[i] == a[i] by {
        assert(padded_extent(a, out_ndim(a, b), i) == a[i] as int);
    }
    assert(broadcast_shape(a, b) =~= a);
}

/// Every extent of the broadcast shape of two positive shapes is positive.
pub proof fn lemma_broadcast_shape_pos(a: Seq<usize>, b: Seq<usize>)
    requires
        shape_pos(a),
        shape_pos(b),
    ensures
        shape_pos(broadcast_shape(a, b)),
{
    assert forall|i: int| 0 <= i < broadcast_shape(a, b).len() implies
        #[trigger] broadcast_shape(a, b)[i] >= 1 by {
        let n = out_ndim(a, b);
        assert(padded_extent(a, n, i) >= 1);
        assert(padded_extent(b, n, i) >= 1);
    }
}

impl<T: Copy> Array<T> {
    /// The shape two arrays broadcast to under the trailing-axis rule, or
    /// nothing when some aligned pair of extents is neither equal nor 1.
    pub fn final_shape(&self, other: &Array<T>) -> (r: Option<Vec<usize>>)
        requires
            self.wf(),
            other.wf(),
        ensures
            (r is Some) <==> broadcast_compatible(self.shape@, other.shape@),
            match r {
                Some(v) => v@ == broadcast_shape(self.shape@, other.shape@),
                None => true,
            },
    {
        let sa = self.ndim;
        let sb = other.ndim;
        let res_ndim = if sa >= sb { sa } else { sb };
        proof {
            assert(out_ndim(self.shape@, other.shape@) == res_ndim as int);
        }
        let mut res: Vec<usize> = Vec::new();
        let mut i: usize = 0;
        while i < res_ndim
            invariant
                i <= res_ndim,
                self.wf(),
                other.wf(),
                sa == self.ndim,
                sb == other.ndim,
                res_ndim as int == out_ndim(self.shape@, other.shape@),
                res_ndim >= sa && res_ndim >= sb,
                res@.len() == i,
                forall|j: int| 0 <= j < i ==> {
                    let pa = #[trigger] padded_extent(self.shape@, res_ndim as int, j);
                    let pb = padded_extent(other.shape@, res_ndim as int, j);
                    pa == pb || pa == 1 || pb == 1
                },
                forall|j: int| 0 <= j < i ==>
                    #[trigger] res@[j] == broadcast_shape(self.shape@, other.shape@)[j],
            decreases res_ndim - i,
        {
            let a = if i >= res_ndim - sa { self.shape[i - (res_ndim - sa)] } else { 1 };
            let b = if i >= res_ndim - sb { other.shape[i - (res_ndim - sb)] } else { 1 };
            proof {
                assert(a as int == padded_extent(self.shape@, res_ndim as int, i as int));
                assert(b as int == padded_extent(other.shape@, res_ndim as int, i as int));
            }
            if a == b || a == 1 || b == 1 {
                res.push(if a >= b { a } else { b });
            } else {
                proof {
                    if broadcast_compatible(self.shape@, other.shape@) {
                        let pa = padded_extent(self.shape@, res_ndim as int, i as int);
                        let pb = padded_extent(other.shape@, res_ndim as int, i as int);
                        assert(pa == pb || pa == 1 || pb == 1);
                    }
                }
                return None;
            }
            i += 1;
        }
        proof {
            assert(broadcast_compatible(self.shape@, other.shape@));
            assert(res@ =~= broadcast_shape(self.shape@, other.shape@));
        }
        Some(res)
    }

    /// A fresh array of the target shape filled by repeating this array's
    /// buffer: position `i` of the result holds element `i` modulo this
    /// array's total size.
    pub fn broadcast(&self, shape: &Vec<usize>) -> (r: Array<T>)
        requires
            self.wf(),
            shape@.len() >= 1,
            shape_pos(shape@),
            product(shape@) <= usize::MAX,
        ensures
            r.wf(),
            r.shape@ == shape@,
            strides_match(r.shape@, r.strides@),
            r.totalsize as int == product(shape@),
            forall|i: int| 0 <= i < r.totalsize ==>
                #[trigger] r.data@[i] == self.data@[i % (self.totalsize as int)],
    {
        let total = match checked_product(shape) {
            Some(t) => t,
            None => vstd::pervasive::unreached(),
        };
        proof {
            lemma_product_pos(self.shape@);
        }
        let mut data: Vec<T> = Vec::new();
        let mut i: usize = 0;
        while i < total
            invariant
                i <= total,
                data@.len() == i,
                self.wf(),
                self.totalsize >= 1,
                forall|j: int| 0 <= j < i ==>
                    #[trigger] data@[j] == self.data@[j % (self.totalsize as int)],
            decreases total - i,
        {
            let idx = i % self.totalsize;
            data.push(self.data[idx]);
            i += 1;
        }
        Self::assemble(shape, data)
    }
}

} // verus!
