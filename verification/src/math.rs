//! The mathematical model of shapes and strided layouts: the element-count
//! product of a shape, row-major strides, the rank (row-major position) of a
//! coordinate, the flat index reached by walking strides, and axis
//! permutations.

use vstd::prelude::*;
use vstd::arithmetic::mul::{lemma_mul_inequality, lemma_mul_is_commutative, lemma_mul_is_associative};
use vstd::arithmetic::div_mod::{lemma_fundamental_div_mod, lemma_mod_bound};

verus! {

/// The product of all entries of a shape: the number of elements a
/// buffer of that shape holds.
pub open spec fn product(s: Seq<usize>) -> int
    decreases s.len(),
{
    if s.len() == 0 {
        1
    } else {
        s[0] * product(s.drop_first())
    }
}

/// The row-major stride of axis `i`: the product of the extents of all
/// later axes (one scalar unit per element).
pub open spec fn stride_at(s: Seq<usize>, i: int) -> int {
    product(s.skip(i + 1))
}

/// `st` is exactly the row-major stride sequence of shape `s`.
pub open spec fn strides_match(s: Seq<usize>, st: Seq<usize>) -> bool {
    &&& st.len() == s.len()
    &&& forall|i: int| 0 <= i < s.len() ==> #[trigger] st[i] == stride_at(s, i)
}

/// Every entry of the shape is at least one.
pub open spec fn shape_pos(s: Seq<usize>) -> bool {
    forall|i: int| 0 <= i < s.len() ==> #[trigger] s[i] >= 1
}

/// `c` is a coordinate tuple inside shape `s`.
pub open spec fn valid_coord(c: Seq<usize>, s: Seq<usize>) -> bool {
    &&& c.len() == s.len()
    &&& forall|i: int| 0 <= i < s.len() ==> #[trigger] c[i] < s[i]
}

/// The row-major position of coordinate `c` in shape `s`:
/// the sum of `c[i] * product(s[i+1..])` over all axes.
pub open spec fn rank(c: Seq<usize>, s: Seq<usize>) -> int
    decreases c.len(),
{
    if c.len() == 0 {
        0
    } else {
        c[0] * product(s.drop_first()) + rank(c.drop_first(), s.drop_first())
    }
}

/// The flat buffer index reached by walking `c[i]` steps of stride `st[i]`
/// along every axis: the sum of `c[i] * st[i]`.
pub open spec fn flat_index(c: Seq<usize>, st: Seq<usize>) -> int
    decreases c.len(),
{
    if c.len() == 0 {
        0
    } else {
        c[0] * st[0] + flat_index(c.drop_first(), st.drop_first())
    }
}

/// The coordinate tuple whose row-major position in shape `s` is `k`,
/// read off axis by axis from the innermost axis outward.
pub open spec fn coord_at(k: int, s: Seq<usize>) -> Seq<usize>
    decreases s.len(),
{
    if s.len() == 0 {
        Seq::empty()
    } else {
        coord_at(k / (s.last() as int), s.drop_last()).push((k % (s.last() as int)) as usize)
    }
}

/// The sum over all axes of `st[i] * (s[i] - 1)`: the largest flat index a
/// traversal of shape `s` with strides `st` can reach.
pub open spec fn sum_backstrides(s: Seq<usize>, st: Seq<usize>) -> int
    decreases s.len(),
{
    if s.len() == 0 {
        0
    } else {
        st[0] * (s[0] - 1) + sum_backstrides(s.drop_first(), st.drop_first())
    }
}

/// `p` is a permutation of the axis numbers `0 .. n`.
pub open spec fn is_axis_permutation(p: Seq<usize>, n: int) -> bool {
    &&& p.len() == n
    &&& forall|i: int| 0 <= i < n ==> #[trigger] p[i] < n
    &&& forall|i: int, j: int| 0 <= i < n && 0 <= j < n && i != j ==> p[i] != p[j]
    &&& forall|v: usize| v < n ==> #[trigger] p.contains(v)
}

pub proof fn lemma_product_pos(s: Seq<usize>)
    requires
        shape_pos(s),
    ensures
        product(s) >= 1,
    decreases s.len(),
{
    if s.len() > 0 {
        assert(shape_pos(s.drop_first()));
        lemma_product_pos(s.drop_first());
        lemma_mul_inequality(1, s[0] as int, product(s.drop_first()));
    }
}

pub proof fn lemma_product_concat(a: Seq<usize>, b: Seq<usize>)
    ensures
        product(a + b) == product(a) * product(b),
    decreases a.len(),
{
    if a.len() == 0 {
        assert(a + b =~= b);
    } else {
        assert((a + b).drop_first() =~= a.drop_first() + b);
        lemma_product_concat(a.drop_first(), b);
        lemma_mul_is_associative(a[0] as int, product(a.drop_first()), product(b));
    }
}

pub proof fn lemma_product_drop_last(s: Seq<usize>)
    requires
        s.len() >= 1,
    ensures
        product(s) == product(s.drop_last()) * (s.last() as int),
{
    assert(s =~= s.drop_last() + seq![s.last()]);
    lemma_product_concat(s.drop_last(), seq![s.last()]);
    assert(seq![s.last()].drop_first() =~= Seq::<usize>::empty());
    assert(product(seq![s.last()]) == s.last() * product(Seq::<usize>::empty()));
}

pub proof fn lemma_product_skip_unfold(s: Seq<usize>, i: int)
    requires
        0 <= i < s.len(),
    ensures
        product(s.skip(i)) == s[i] * product(s.skip(i + 1)),
{
    assert(s.skip(i).drop_first() =~= s.skip(i + 1));
    assert(s.skip(i)[0] == s[i]);
}

pub proof fn lemma_product_take_skip(s: Seq<usize>, i: int)
    requires
        0 <= i <= s.len(),
    ensures
        product(s) == product(s.take(i)) * product(s.skip(i)),
{
    assert(s =~= s.take(i) + s.skip(i));
    lemma_product_concat(s.take(i), s.skip(i));
}

pub proof fn lemma_product_skip_le(s: Seq<usize>, i: int)
    requires
        shape_pos(s),
        0 <= i <= s.len(),
    ensures
        1 <= product(s.skip(i)) <= product(s),
{
    lemma_product_take_skip(s, i);
    assert(shape_pos(s.skip(i)));
    assert(shape_pos(s.take(i)));
    lemma_product_pos(s.skip(i));
    lemma_product_pos(s.take(i));
    lemma_mul_inequality(1, product(s.take(i)), product(s.skip(i)));
}

pub proof fn lemma_product_zero_entry(s: Seq<usize>, i: int)
    requires
        0 <= i < s.len(),
        s[i] == 0,
    ensures
        product(s) == 0,
{
    lemma_product_take_skip(s, i);
    lemma_product_skip_unfold(s, i);
    assert(product(s.skip(i)) == 0);
    vstd::arithmetic::mul::lemma_mul_by_zero_is_zero(product(s.take(i)));
}

pub proof fn lemma_product_nonzero_entries(s: Seq<usize>)
    requires
        product(s) != 0,
    ensures
        shape_pos(s),
{
    assert forall|i: int| 0 <= i < s.len() implies #[trigger] s[i] >= 1 by {
        if s[i] == 0 {
            lemma_product_zero_entry(s, i);
        }
    }
}

/// The backstride of any axis is below the whole element count.
pub proof fn lemma_backstride_bound(s: Seq<usize>, i: int)
    requires
        shape_pos(s),
        0 <= i < s.len(),
    ensures
        0 <= stride_at(s, i) * (s[i] - 1) < product(s),
        stride_at(s, i) >= 1,
{
    lemma_product_skip_unfold(s, i);
    lemma_product_skip_le(s, i);
    assert(shape_pos(s.skip(i + 1)));
    lemma_product_pos(s.skip(i + 1));
    let p = product(s.skip(i + 1));
    lemma_mul_is_commutative(s[i] as int, p);
    assert(p * (s[i] - 1) == p * (s[i] as int) - p) by {
        vstd::arithmetic::mul::lemma_mul_is_distributive_sub(p, s[i] as int, 1);
    }
    lemma_mul_inequality(0, s[i] - 1, p);
}

pub proof fn lemma_strides_match_tail(s: Seq<usize>, st: Seq<usize>)
    requires
        strides_match(s, st),
        s.len() >= 1,
    ensures
        strides_match(s.drop_first(), st.drop_first()),
{
    assert forall|i: int| 0 <= i < s.drop_first().len()
        implies #[trigger] st.drop_first()[i] == stride_at(s.drop_first(), i) by {
        assert(st.drop_first()[i] == st[i + 1]);
        assert(s.drop_first().skip(i + 1) =~= s.skip(i + 2));
    }
}

/// Walking strides derived row-major from a shape lands on the row-major
/// position of the coordinate: the sum of `c[i] * st[i]` equals the sum of
/// `c[i] * product(s[i+1..])`.
pub proof fn lemma_strided_index_is_row_major(c: Seq<usize>, s: Seq<usize>, st: Seq<usize>)
    requires
        c.len() == s.len(),
        strides_match(s, st),
    ensures
        flat_index(c, st) == rank(c, s),
    decreases c.len(),
{
    if c.len() > 0 {
        assert(st[0] == stride_at(s, 0));
        assert(s.skip(1) =~= s.drop_first());
        lemma_strides_match_tail(s, st);
        lemma_strided_index_is_row_major(c.drop_first(), s.drop_first(), st.drop_first());
    }
}

/// The rank unfolds from the innermost axis outward in Horner form.
pub proof fn lemma_rank_horner(c: Seq<usize>, s: Seq<usize>)
    requires
        c.len() == s.len(),
        c.len() >= 1,
    ensures
        rank(c, s) == rank(c.drop_last(), s.drop_last()) * (s.last() as int) + c.last(),
    decreases c.len(),
{
    let n = c.len() as int;
    if n == 1 {
        assert(rank(c, s) == c[0] * product(s.drop_first()) + rank(c.drop_first(), s.drop_first()));
        assert(s.drop_first().len() == 0);
        assert(product(s.drop_first()) == 1);
        assert(rank(c.drop_first(), s.drop_first()) == 0);
        assert(c.drop_last().len() == 0);
        assert(rank(c.drop_last(), s.drop_last()) == 0);
        assert(c.last() == c[0]);
    } else {
        let ct = c.drop_first();
        let stt = s.drop_first();
        lemma_rank_horner(ct, stt);
        // rank(ct, stt) == rank(ct', stt') * last + c.last()
        assert(ct.drop_last() =~= c.drop_last().drop_first());
        assert(stt.drop_last() =~= s.drop_last().drop_first());
        assert(stt.last() == s.last());
        assert(ct.last() == c.last());
        // product(s.drop_first()) == product(s.drop_last().drop_first()) * s.last()
        lemma_product_drop_last(stt);
        assert(stt.drop_last() =~= s.drop_last().drop_first());
        let p = product(s.drop_last().drop_first());
        let l = s.last() as int;
        assert(rank(c, s) == c[0] * (p * l) + (rank(ct.drop_last(), stt.drop_last()) * l + c.last() as int));
        lemma_mul_is_associative(c[0] as int, p, l);
        assert(rank(c.drop_last(), s.drop_last()) == c[0] * p + rank(c.drop_last().drop_first(), s.drop_last().drop_first()));
        vstd::arithmetic::mul::lemma_mul_is_distributive_add_other_way(l, c[0] * p, rank(ct.drop_last(), stt.drop_last()));
    }
}

/// The coordinate read off by `coord_at` is in bounds and its rank is `k`:
/// every position below the element count names exactly one coordinate.
pub proof fn lemma_rank_coord_at(k: int, s: Seq<usize>)
    requires
        shape_pos(s),
        0 <= k < product(s),
    ensures
        valid_coord(coord_at(k, s), s),
        rank(coord_at(k, s), s) == k,
    decreases s.len(),
{
    if s.len() == 0 {
        assert(product(s) == 1);
        assert(coord_at(k, s) =~= Seq::<usize>::empty());
    } else {
        let l = s.last() as int;
        let q = k / l;
        let r = k % l;
        lemma_fundamental_div_mod(k, l);
        lemma_mod_bound(k, l);
        let sd = s.drop_last();
        assert(shape_pos(sd));
        lemma_product_drop_last(s);
        lemma_product_pos(sd);
        // q < product(sd): otherwise k >= product(sd) * l
        if q >= product(sd) {
            lemma_mul_inequality(product(sd), q, l);
            assert(false);
        }
        assert(q >= 0) by {
            vstd::arithmetic::div_mod::lemma_div_pos_is_pos(k, l);
        }
        lemma_rank_coord_at(q, sd);
        let c = coord_at(k, s);
        assert(c == coord_at(q, sd).push(r as usize));
        assert(c.drop_last() =~= coord_at(q, sd));
        assert(c.last() == r as usize);
        assert(valid_coord(c, s)) by {
            assert(forall|i: int| 0 <= i < sd.len() ==> c[i] == #[trigger] coord_at(q, sd)[i]);
            assert(forall|i: int| 0 <= i < sd.len() ==> #[trigger] s[i] == sd[i]);
        }
        lemma_rank_horner(c, s);
    }
}

pub proof fn lemma_coord_at_len(k: int, s: Seq<usize>)
    ensures
        coord_at(k, s).len() == s.len(),
    decreases s.len(),
{
    if s.len() > 0 {
        lemma_coord_at_len(k / (s.last() as int), s.drop_last());
    }
}

/// The coordinate read off by `coord_at` stays inside the shape, whatever
/// the position: each axis entry is a remainder below that axis's extent.
pub proof fn lemma_coord_at_valid(k: int, s: Seq<usize>)
    requires
        shape_pos(s),
        k >= 0,
    ensures
        valid_coord(coord_at(k, s), s),
    decreases s.len(),
{
    if s.len() > 0 {
        let l = s.last() as int;
        lemma_mod_bound(k, l);
        assert(k / l >= 0) by {
            vstd::arithmetic::div_mod::lemma_div_pos_is_pos(k, l);
        }
        assert(shape_pos(s.drop_last()));
        lemma_coord_at_valid(k / l, s.drop_last());
        lemma_coord_at_len(k / l, s.drop_last());
        let c = coord_at(k, s);
        assert(c.drop_last() =~= coord_at(k / l, s.drop_last()));
        assert forall|i: int| 0 <= i < s.len() implies #[trigger] c[i] < s[i] by {
            if i < s.len() - 1 {
                assert(c[i] == coord_at(k / l, s.drop_last())[i]);
                assert(s[i] == s.drop_last()[i]);
            } else {
                assert(c[i] == (k % l) as usize);
            }
        }
    }
}

/// Appending one innermost axis step adds its contribution to the walk.
pub proof fn lemma_flat_index_push(c: Seq<usize>, st: Seq<usize>, x: usize)
    requires
        c.len() + 1 == st.len(),
    ensures
        flat_index(c.push(x), st) == flat_index(c, st.drop_last()) + x * (st.last() as int),
    decreases c.len(),
{
    if c.len() == 0 {
        assert(c.push(x) =~= seq![x]);
        assert(seq![x].drop_first() =~= Seq::<usize>::empty());
        assert(flat_index(c.push(x), st) == x * st[0] + flat_index(Seq::<usize>::empty(), st.drop_first()));
        assert(st.last() == st[0]);
    } else {
        assert(c.push(x).drop_first() =~= c.drop_first().push(x));
        lemma_flat_index_push(c.drop_first(), st.drop_first(), x);
        assert(st.drop_first().drop_last() =~= st.drop_last().drop_first());
        assert(st.drop_first().last() == st.last());
        assert(st.drop_last()[0] == st[0]);
        assert(flat_index(c, st.drop_last())
            == c[0] * st.drop_last()[0] + flat_index(c.drop_first(), st.drop_last().drop_first()));
    }
}

/// The flat index of any in-bounds coordinate is non-negative.
pub proof fn lemma_flat_index_nonneg(c: Seq<usize>, st: Seq<usize>)
    requires
        c.len() <= st.len(),
    ensures
        flat_index(c, st) >= 0,
    decreases c.len(),
{
    if c.len() > 0 {
        lemma_flat_index_nonneg(c.drop_first(), st.drop_first());
        lemma_mul_inequality(0, c[0] as int, st[0] as int);
    }
}

/// No in-bounds coordinate reaches past the sum of the backstrides.
pub proof fn lemma_flat_index_le_sum_backstrides(c: Seq<usize>, s: Seq<usize>, st: Seq<usize>)
    requires
        valid_coord(c, s),
        st.len() == s.len(),
    ensures
        flat_index(c, st) <= sum_backstrides(s, st),
    decreases c.len(),
{
    if c.len() > 0 {
        assert(valid_coord(c.drop_first(), s.drop_first()));
        lemma_flat_index_le_sum_backstrides(c.drop_first(), s.drop_first(), st.drop_first());
        lemma_mul_inequality(c[0] as int, s[0] - 1, st[0] as int);
        lemma_mul_is_commutative(c[0] as int, st[0] as int);
        lemma_mul_is_commutative(s[0] - 1, st[0] as int);
    }
}

/// For row-major strides the backstride sum telescopes to one less than
/// the element count.
pub proof fn lemma_row_major_backstride_sum(s: Seq<usize>, st: Seq<usize>)
    requires
        shape_pos(s),
        strides_match(s, st),
    ensures
        sum_backstrides(s, st) == product(s) - 1,
    decreases s.len(),
{
    if s.len() == 0 {
    } else {
        lemma_strides_match_tail(s, st);
        assert(shape_pos(s.drop_first()));
        lemma_row_major_backstride_sum(s.drop_first(), st.drop_first());
        assert(st[0] == stride_at(s, 0));
        assert(s.skip(1) =~= s.drop_first());
        let p = product(s.drop_first());
        // st[0] * (s[0] - 1) == s[0] * p - p
        assert(p * (s[0] - 1) == p * (s[0] as int) - p) by {
            vstd::arithmetic::mul::lemma_mul_is_distributive_sub(p, s[0] as int, 1);
        }
        lemma_mul_is_commutative(s[0] as int, p);
    }
}

/// A permuted shape keeps its element-count product.
pub proof fn lemma_product_permuted(s: Seq<usize>, t: Seq<usize>, p: Seq<usize>)
    requires
        t.len() == s.len(),
        s.len() <= usize::MAX,
        is_axis_permutation(p, s.len() as int),
        forall|i: int| 0 <= i < s.len() ==> #[trigger] t[i] == s[p[i] as int],
    ensures
        product(t) == product(s),
    decreases s.len(),
{
    let n = s.len() as int;
    if n == 0 {
    } else {
        // the index that maps to the last axis
        assert(p.contains((n - 1) as usize));
        let j = choose|j: int| 0 <= j < p.len() && p[j] == (n - 1) as usize;
        let t2 = t.take(j) + t.skip(j + 1);
        let p2 = p.take(j) + p.skip(j + 1);
        let s2 = s.drop_last();
        assert(t2.len() == n - 1);
        assert(p2.len() == n - 1);
        // p2 is a permutation of 0 .. n-1
        assert forall|i: int| 0 <= i < n - 1 implies #[trigger] p2[i] < (n - 1) as usize by {
            let oi = if i < j { i } else { i + 1 };
            assert(p2[i] == p[oi]);
            assert(p[oi] != p[j]);
        }
        assert forall|i: int, i2: int| 0 <= i < n - 1 && 0 <= i2 < n - 1 && i != i2
            implies p2[i] != p2[i2] by {
            let oi = if i < j { i } else { i + 1 };
            let oi2 = if i2 < j { i2 } else { i2 + 1 };
            assert(p2[i] == p[oi] && p2[i2] == p[oi2]);
        }
        assert forall|v: usize| v < (n - 1) as usize implies #[trigger] p2.contains(v) by {
            assert(p.contains(v));
            let oi = choose|oi: int| 0 <= oi < p.len() && p[oi] == v;
            assert(oi != j);
            let i = if oi < j { oi } else { oi - 1 };
            assert(0 <= i < p2.len() && p2[i] == p[oi]);
        }
        assert(is_axis_permutation(p2, n - 1));
        assert forall|i: int| 0 <= i < n - 1 implies #[trigger] t2[i] == s2[p2[i] as int] by {
            let oi = if i < j { i } else { i + 1 };
            assert(t2[i] == t[oi]);
            assert(p2[i] == p[oi]);
            assert(p[oi] < (n - 1) as usize);
            assert(s2[p[oi] as int] == s[p[oi] as int]);
        }
        lemma_product_permuted(s2, t2, p2);
        // product(t) == t[j] * product(t2)
        lemma_product_take_skip(t, j);
        lemma_product_skip_unfold(t, j);
        lemma_product_concat(t.take(j), t.skip(j + 1));
        let a = product(t.take(j));
        let b = product(t.skip(j + 1));
        let x = t[j] as int;
        assert(product(t) == a * (x * b));
        assert(a * (x * b) == x * (a * b)) by {
            lemma_mul_is_associative(a, x, b);
            lemma_mul_is_commutative(a, x);
            lemma_mul_is_associative(x, a, b);
        }
        assert(product(t2) == a * b);
        assert(t[j] == s.last());
        lemma_product_drop_last(s);
        lemma_mul_is_commutative(product(s2), s.last() as int);
    }
}

/// The per-axis backstride terms as one sequence.
pub open spec fn backstride_terms(s: Seq<usize>, st: Seq<usize>) -> Seq<int> {
    Seq::new(s.len(), |i: int| st[i] * (s[i] - 1))
}

/// The sum of a sequence of integers.
pub open spec fn isum(xs: Seq<int>) -> int
    decreases xs.len(),
{
    if xs.len() == 0 {
        0
    } else {
        xs[0] + isum(xs.drop_first())
    }
}

pub proof fn lemma_isum_concat(a: Seq<int>, b: Seq<int>)
    ensures
        isum(a + b) == isum(a) + isum(b),
    decreases a.len(),
{
    if a.len() == 0 {
        assert(a + b =~= b);
    } else {
        assert((a + b).drop_first() =~= a.drop_first() + b);
        lemma_isum_concat(a.drop_first(), b);
    }
}

pub proof fn lemma_isum_drop_last(xs: Seq<int>)
    requires
        xs.len() >= 1,
    ensures
        isum(xs) == isum(xs.drop_last()) + xs.last(),
{
    assert(xs =~= xs.drop_last() + seq![xs.last()]);
    lemma_isum_concat(xs.drop_last(), seq![xs.last()]);
    assert(seq![xs.last()].drop_first() =~= Seq::<int>::empty());
    assert(isum(seq![xs.last()]) == xs.last() + isum(Seq::<int>::empty()));
}

/// Reordering a sequence does not change its sum.
pub proof fn lemma_isum_permuted(xs: Seq<int>, ys: Seq<int>, p: Seq<usize>)
    requires
        ys.len() == xs.len(),
        xs.len() <= usize::MAX,
        is_axis_permutation(p, xs.len() as int),
        forall|i: int| 0 <= i < xs.len() ==> #[trigger] ys[i] == xs[p[i] as int],
    ensures
        isum(ys) == isum(xs),
    decreases xs.len(),
{
    let n = xs.len() as int;
    if n > 0 {
        assert(p.contains((n - 1) as usize));
        let j = choose|j: int| 0 <= j < p.len() && p[j] == (n - 1) as usize;
        let y2 = ys.take(j) + ys.skip(j + 1);
        let p2 = p.take(j) + p.skip(j + 1);
        let x2 = xs.drop_last();
        assert forall|i: int| 0 <= i < n - 1 implies #[trigger] p2[i] < (n - 1) as usize by {
            let oi = if i < j { i } else { i + 1 };
            assert(p2[i] == p[oi]);
            assert(p[oi] != p[j]);
        }
        assert forall|i: int, i2: int| 0 <= i < n - 1 && 0 <= i2 < n - 1 && i != i2
            implies p2[i] != p2[i2] by {
            let oi = if i < j { i } else { i + 1 };
            let oi2 = if i2 < j { i2 } else { i2 + 1 };
            assert(p2[i] == p[oi] && p2[i2] == p[oi2]);
        }
        assert forall|v: usize| v < (n - 1) as usize implies #[trigger] p2.contains(v) by {
            assert(p.contains(v));
            let oi = choose|oi: int| 0 <= oi < p.len() && p[oi] == v;
            assert(oi != j);
            let i = if oi < j { oi } else { oi - 1 };
            assert(0 <= i < p2.len() && p2[i] == p[oi]);
        }
        assert(is_axis_permutation(p2, n - 1));
        assert forall|i: int| 0 <= i < n - 1 implies #[trigger] y2[i] == x2[p2[i] as int] by {
            let oi = if i < j { i } else { i + 1 };
            assert(y2[i] == ys[oi]);
            assert(p2[i] == p[oi]);
            assert(p[oi] < (n - 1) as usize);
            assert(x2[p[oi] as int] == xs[p[oi] as int]);
        }
        lemma_isum_permuted(x2, y2, p2);
        // isum(ys) == ys[j] + isum(y2)
        lemma_isum_concat(ys.take(j), ys.skip(j));
        assert(ys =~= ys.take(j) + ys.skip(j));
        assert(ys.skip(j).drop_first() =~= ys.skip(j + 1));
        assert(isum(ys.skip(j)) == ys[j] + isum(ys.skip(j + 1)));
        lemma_isum_concat(ys.take(j), ys.skip(j + 1));
        lemma_isum_drop_last(xs);
        assert(ys[j] == xs[n - 1]);
    }
}

/// The backstride sum, written as the sum of the per-axis terms.
pub proof fn lemma_sum_backstrides_is_isum(s: Seq<usize>, st: Seq<usize>)
    requires
        st.len() == s.len(),
    ensures
        sum_backstrides(s, st) == isum(backstride_terms(s, st)),
    decreases s.len(),
{
    if s.len() > 0 {
        lemma_sum_backstrides_is_isum(s.drop_first(), st.drop_first());
        assert(backstride_terms(s, st).drop_first()
            =~= backstride_terms(s.drop_first(), st.drop_first()));
    }
}

/// Permuting shape and strides together keeps the backstride sum: a
/// transposed layout spans exactly the same flat range.
pub proof fn lemma_sum_backstrides_permuted(
    s: Seq<usize>,
    st: Seq<usize>,
    t: Seq<usize>,
    tt: Seq<usize>,
    p: Seq<usize>,
)
    requires
        st.len() == s.len(),
        t.len() == s.len(),
        tt.len() == s.len(),
        s.len() <= usize::MAX,
        is_axis_permutation(p, s.len() as int),
        forall|i: int| 0 <= i < s.len() ==> #[trigger] t[i] == s[p[i] as int],
        forall|i: int| 0 <= i < s.len() ==> #[trigger] tt[i] == st[p[i] as int],
    ensures
        sum_backstrides(t, tt) == sum_backstrides(s, st),
{
    lemma_sum_backstrides_is_isum(s, st);
    lemma_sum_backstrides_is_isum(t, tt);
    assert forall|i: int| 0 <= i < s.len() implies
        #[trigger] backstride_terms(t, tt)[i] == backstride_terms(s, st)[p[i] as int] by {
        assert(t[i] == s[p[i] as int] && tt[i] == st[p[i] as int]);
    }
    lemma_isum_permuted(backstride_terms(s, st), backstride_terms(t, tt), p);
}

} // verus!
