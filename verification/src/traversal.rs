//! The depth-first, axis-by-axis walk a printer follows: for each position
//! in row-major coordinate order, the flat buffer index reached by summing
//! the per-axis stride steps. The walk is produced as a sequence of flat
//! indices, to be consumed by whatever renders the nested rows.

use vstd::prelude::*;

use crate::array::Array;
use crate::math::{
    product, shape_pos, strides_match, sum_backstrides, coord_at, flat_index,
    lemma_coord_at_valid, lemma_coord_at_len, lemma_flat_index_le_sum_backstrides,
    lemma_flat_index_nonneg, lemma_flat_index_push, lemma_rank_coord_at,
    lemma_strided_index_is_row_major,
};
use vstd::arithmetic::div_mod::lemma_mod_bound;
use vstd::arithmetic::mul::lemma_mul_inequality;

verus! {

impl<T: Copy> Array<T> {
    /// The order in which a nested traversal visits the flat buffer: entry
    /// `k` is the flat index of the `k`-th coordinate in row-major
    /// coordinate order of the current shape, reached through the strides.
    pub fn traversal_indices(&self) -> (r: Vec<usize>)
        requires
            self.wf(),
            sum_backstrides(self.shape@, self.strides@) <= usize::MAX,
        ensures
            r@.len() == self.totalsize,
            forall|k: int| 0 <= k < self.totalsize ==>
                #[trigger] r@[k] as int == flat_index(coord_at(k, self.shape@), self.strides@),
    {
        let n = self.ndim;
        let total = self.totalsize;
        let mut r: Vec<usize> = Vec::new();
        let mut k: usize = 0;
        while k < total
            invariant
                k <= total,
                r@.len() == k,
                n == self.ndim,
                total == self.totalsize,
                self.wf(),
                sum_backstrides(self.shape@, self.strides@) <= usize::MAX,
                forall|k2: int| 0 <= k2 < k ==>
                    #[trigger] r@[k2] as int == flat_index(coord_at(k2, self.shape@), self.strides@),
            decreases total - k,
        {
            let ghost fi = flat_index(coord_at(k as int, self.shape@), self.strides@);
            proof {
                lemma_coord_at_valid(k as int, self.shape@);
                lemma_coord_at_len(k as int, self.shape@);
                lemma_flat_index_le_sum_backstrides(
                    coord_at(k as int, self.shape@),
                    self.shape@,
                    self.strides@,
                );
                lemma_flat_index_nonneg(coord_at(k as int, self.shape@), self.strides@);
                assert(self.shape@.take(n as int) =~= self.shape@);
                assert(self.strides@.take(n as int) =~= self.strides@);
            }
            let mut rem: usize = k;
            let mut idx: usize = 0;
            let mut j: usize = n;
            while j > 0
                invariant
                    j <= n,
                    n == self.ndim,
                    self.wf(),
                    fi == flat_index(coord_at(k as int, self.shape@), self.strides@),
                    0 <= fi <= sum_backstrides(self.shape@, self.strides@),
                    sum_backstrides(self.shape@, self.strides@) <= usize::MAX,
                    flat_index(
                        coord_at(rem as int, self.shape@.take(j as int)),
                        self.strides@.take(j as int),
                    ) + idx as int == fi,
                    idx as int <= fi,
                decreases j,
            {
                let sh = self.shape[j - 1];
                let st = self.strides[j - 1];
                proof {
                    let sj = self.shape@.take(j as int);
                    let stj = self.strides@.take(j as int);
                    assert(sj.last() == self.shape@[j - 1]);
                    assert(sj.drop_last() =~= self.shape@.take(j - 1));
                    assert(stj.drop_last() =~= self.strides@.take(j - 1));
                    assert(stj.last() == self.strides@[j - 1]);
                    let q = (rem as int) / (sh as int);
                    let c = (rem as int) % (sh as int);
                    lemma_mod_bound(rem as int, sh as int);
                    assert(coord_at(rem as int, sj)
                        == coord_at(q, sj.drop_last()).push(c as usize));
                    lemma_coord_at_len(q, self.shape@.take(j - 1));
                    lemma_flat_index_push(coord_at(q, self.shape@.take(j - 1)), stj, c as usize);
                    assert(flat_index(coord_at(rem as int, sj), stj)
                        == flat_index(coord_at(q, self.shape@.take(j - 1)), self.strides@.take(j - 1))
                            + c * (st as int));
                    lemma_flat_index_nonneg(
                        coord_at(q, self.shape@.take(j - 1)),
                        self.strides@.take(j - 1),
                    );
                    lemma_mul_inequality(0, c, st as int);
                    assert(idx as int + c * (st as int) <= fi);
                }
                let c = rem % sh;
                rem = rem / sh;
                idx = idx + c * st;
                j -= 1;
            }
            proof {
                assert(self.shape@.take(0) =~= Seq::<usize>::empty());
                assert(coord_at(rem as int, Seq::<usize>::empty()) =~= Seq::<usize>::empty());
                assert(flat_index(Seq::<usize>::empty(), self.strides@.take(0)) == 0);
                assert(idx as int == fi);
            }
            r.push(idx);
            k += 1;
        }
        r
    }
}

/// For a freshly shaped array, whose strides are row-major, the traversal
/// visits the flat positions `0, 1, 2, ...` in order: the flat index
/// computed by walking the strides at the `k`-th coordinate equals the
/// row-major position `k` itself.
pub proof fn lemma_row_major_traversal(s: Seq<usize>, st: Seq<usize>, k: int)
    requires
        shape_pos(s),
        strides_match(s, st),
        0 <= k < product(s),
    ensures
        flat_index(coord_at(k, s), st) == k,
{
    lemma_rank_coord_at(k, s);
    lemma_coord_at_len(k, s);
    lemma_strided_index_is_row_major(coord_at(k, s), s, st);
}

} // verus!
