//! Row-major layout arithmetic shared by the structural primitives, and a
//! gather over ravel indices.

use vstd::prelude::*;
use crate::cell::Cell;
use crate::shape::prod;

verus! {

/// The position `row * n + k` of a row-major layout with rows of length `n`
/// lies before `outer * n`, and splits back into `row` and `k`.
pub proof fn lemma_rowmajor(row: int, k: int, n: int, outer: int)
    requires
        0 <= row < outer,
        0 <= k < n,
    ensures
        0 <= row * n + k < outer * n,
        (row * n + k) / n == row,
        (row * n + k) % n == k,
        row * n + n <= outer * n,
{
    assert(0 <= row * n) by (nonlinear_arith) requires 0 <= row, 0 < n;
    assert(row * n + n <= outer * n) by (nonlinear_arith) requires row + 1 <= outer, 0 < n;
    vstd::arithmetic::div_mod::lemma_fundamental_div_mod_converse(row * n + k, n, row, k);
}

/// The three-level position `(p * n + k) * post + s`.
pub proof fn lemma_rowmajor3(p: int, k: int, s: int, pre: int, n: int, post: int)
    requires
        0 <= p < pre,
        0 <= k < n,
        0 <= s < post,
    ensures
        0 <= (p * n + k) * post + s < pre * n * post,
        ((p * n + k) * post + s) % post == s,
        ((p * n + k) * post + s) / post == p * n + k,
        ((p * n + k) * post + s) / post / n == p,
        ((p * n + k) * post + s) / post % n == k,
{
    lemma_rowmajor(p, k, n, pre);
    lemma_rowmajor(p * n + k, s, post, pre * n);
}

/// The product of the dimensions is the product of all but the last, times the last.
pub proof fn lemma_prod_split_last(d: Seq<i64>)
    requires
        d.len() > 0,
    ensures
        prod(d) == prod(d.drop_last()) * d.last(),
{
}

/// `n` raised into the ravel: the cells of `cells` at the positions `idx`.
pub open spec fn gathered(cells: Seq<Cell>, idx: Seq<usize>) -> Seq<Cell> {
    Seq::new(idx.len(), |i: int| cells[idx[i] as int])
}

/// The cells at the given ravel positions.
pub fn gather(cells: &[Cell], idx: &[usize]) -> (r: Vec<Cell>)
    requires
        forall|i: int| 0 <= i < idx@.len() ==> idx@[i] < cells@.len(),
    ensures
        r@ == gathered(cells@, idx@),
{
    let mut out: Vec<Cell> = Vec::new();
    let mut i: usize = 0;
    while i < idx.len()
        invariant
            i <= idx@.len(),
            forall|j: int| 0 <= j < idx@.len() ==> idx@[j] < cells@.len(),
            out@ == gathered(cells@, idx@.take(i as int)),
        decreases idx@.len() - i,
    {
        out.push(cells[idx[i]].clone());
        proof {
            assert(gathered(cells@, idx@.take(i as int + 1)) =~= gathered(cells@, idx@.take(i as int)).push(cells@[idx@[i as int] as int]));
        }
        i += 1;
    }
    assert(idx@.take(i as int) =~= idx@);
    out
}

} // verus!
