//! Parameter matrices: what the cartesian product of their dimensions holds.

use crate::outside::product;
use vstd::prelude::*;

verus! {

/// The number of combinations: the product of the lengths of the
/// dimensions, which is 1 where there is none.
pub open spec fn volume<T>(dims: Seq<Seq<T>>) -> nat
    decreases dims.len(),
{
    if dims.len() == 0 {
        1
    } else {
        dims[0].len() * volume(dims.drop_first())
    }
}

/// Where combination `k` of a product with `tail` combinations per element
/// of the first dimension takes its first element, and which combination of
/// the remaining dimensions it continues with.
proof fn lemma_split(k: int, head: int, tail: int)
    requires
        0 <= k < head * tail,
        0 <= head,
        0 <= tail,
    ensures
        tail > 0,
        0 <= k / tail < head,
        0 <= k % tail < tail,
        k == (k / tail) * tail + k % tail,
{
    assert(tail > 0) by (nonlinear_arith)
        requires
            0 <= k < head * tail,
            0 <= tail,
    ;
    vstd::arithmetic::div_mod::lemma_fundamental_div_mod(k, tail);
    vstd::arithmetic::div_mod::lemma_mod_bound(k, tail);
    let q = k / tail;
    let r = k % tail;
    assert(k == tail * q + r);
    assert(0 <= q < head) by (nonlinear_arith)
        requires
            0 <= k < head * tail,
            k == tail * q + r,
            0 <= r < tail,
            tail > 0,
    ;
    assert((k / tail) * tail == tail * q) by (nonlinear_arith)
        requires
            q == k / tail,
    ;
}

/// There are as many combinations as the lengths of the dimensions
/// multiply to.
pub proof fn lemma_product_len<T>(dims: Seq<Seq<T>>)
    ensures
        product(dims).len() == volume(dims),
    decreases dims.len(),
{
    if dims.len() > 0 {
        lemma_product_len(dims.drop_first());
    }
}

/// Every combination takes one element of each dimension, in the order of
/// the dimensions.
pub proof fn lemma_product_entry<T>(dims: Seq<Seq<T>>, k: int, d: int)
    requires
        0 <= k < product(dims).len(),
        0 <= d < dims.len(),
    ensures
        product(dims)[k].len() == dims.len(),
        dims[d].contains(product(dims)[k][d]),
    decreases dims.len(),
{
    let head = dims[0];
    let rest = dims.drop_first();
    let tail = product(rest);
    lemma_split(k, head.len() as int, tail.len() as int);
    let a = k / (tail.len() as int);
    let b = k % (tail.len() as int);
    let combo = product(dims)[k];
    assert(combo == seq![head[a]] + tail[b]);
    if rest.len() > 0 {
        lemma_product_entry(rest, b, 0);
    } else {
        assert(tail[b].len() == 0);
    }
    assert(tail[b].len() == rest.len());
    if d == 0 {
        assert(combo[0] == head[a]);
    } else {
        lemma_product_entry(rest, b, d - 1);
        assert(combo[d] == tail[b][d - 1]);
        assert(rest[d - 1] == dims[d]);
    }
}

/// Where no dimension holds an element twice, no combination comes twice.
pub proof fn lemma_product_distinct<T>(dims: Seq<Seq<T>>, j: int, k: int)
    requires
        forall|d: int| 0 <= d < dims.len() ==> (#[trigger] dims[d]).no_duplicates(),
        0 <= j < product(dims).len(),
        0 <= k < product(dims).len(),
        product(dims)[j] == product(dims)[k],
    ensures
        j == k,
    decreases dims.len(),
{
    if dims.len() == 0 {
    } else {
        let head = dims[0];
        let rest = dims.drop_first();
        let tail = product(rest);
        let t = tail.len() as int;
        lemma_split(j, head.len() as int, t);
        lemma_split(k, head.len() as int, t);
        let cj = seq![head[j / t]] + tail[j % t];
        let ck = seq![head[k / t]] + tail[k % t];
        assert(product(dims)[j] == cj);
        assert(product(dims)[k] == ck);
        assert(cj[0] == ck[0]);
        assert(head.no_duplicates());
        assert(j / t == k / t);
        assert(tail[j % t] =~= cj.skip(1));
        assert(tail[k % t] =~= ck.skip(1));
        assert forall|d: int| 0 <= d < rest.len() implies (#[trigger] rest[d]).no_duplicates() by {
            assert(rest[d] == dims[d + 1]);
        }
        lemma_product_distinct(rest, j % t, k % t);
    }
}

/// For each dimension, the positions of its entries.
pub open spec fn positions<T>(dims: Seq<Seq<T>>) -> Seq<Seq<usize>> {
    Seq::new(dims.len(), |d: int| Seq::new(dims[d].len(), |i: int| i as usize))
}

/// The entries at the positions that `picks` gives, one per dimension.
pub open spec fn select<T>(dims: Seq<Seq<T>>, picks: Seq<usize>) -> Seq<T> {
    Seq::new(dims.len(), |d: int| dims[d][picks[d] as int])
}

/// Combining positions and then taking the entries gives the combinations
/// of the entries.
pub proof fn lemma_product_select<T>(dims: Seq<Seq<T>>, k: int)
    requires
        0 <= k < product(dims).len(),
        forall|d: int| 0 <= d < dims.len() ==> (#[trigger] dims[d]).len() <= usize::MAX,
    ensures
        product(positions(dims)).len() == product(dims).len(),
        select(dims, product(positions(dims))[k]) == product(dims)[k],
    decreases dims.len(),
{
    let pos = positions(dims);
    lemma_positions_len(dims);
    if dims.len() == 0 {
        assert(select(dims, product(pos)[k]) =~= product(dims)[k]);
    } else {
        let head = dims[0];
        let rest = dims.drop_first();
        let tail = product(rest);
        let t = tail.len() as int;
        assert(pos.drop_first() =~= positions(rest));
        let ptail = product(positions(rest));
        lemma_positions_len(rest);
        assert(ptail.len() == t);
        lemma_split(k, head.len() as int, t);
        let a = k / t;
        let b = k % t;
        assert forall|d: int| 0 <= d < rest.len() implies (#[trigger] rest[d]).len() <= usize::MAX by {
            assert(rest[d] == dims[d + 1]);
        }
        lemma_product_select(rest, b);
        let picks = product(pos)[k];
        assert(picks == seq![pos[0][a]] + ptail[b]);
        assert(pos[0][a] == a as usize);
        if rest.len() > 0 {
            lemma_product_entry(positions(rest), b, 0);
        }
        assert forall|d: int| 0 <= d < dims.len() implies select(dims, picks)[d] == product(dims)[k][d] by {
            if d > 0 {
                assert(picks[d] == ptail[b][d - 1]);
                assert(select(rest, ptail[b])[d - 1] == rest[d - 1][ptail[b][d - 1] as int]);
                assert(rest[d - 1] == dims[d]);
                assert(product(dims)[k][d] == tail[b][d - 1]);
            }
        }
        lemma_product_entry(dims, k, 0);
        assert(select(dims, picks) =~= product(dims)[k]);
    }
}

/// Positions multiply to as many combinations as the entries do.
pub proof fn lemma_positions_len<T>(dims: Seq<Seq<T>>)
    ensures
        product(positions(dims)).len() == product(dims).len(),
    decreases dims.len(),
{
    if dims.len() > 0 {
        assert(positions(dims).drop_first() =~= positions(dims.drop_first()));
        lemma_positions_len(dims.drop_first());
    }
}

} // verus!
