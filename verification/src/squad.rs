//! Squad `A⌷B` (select one element by its coordinates), and reverse `⊖B`
//! and rotate `A⊖B` along the first axis.

use vstd::prelude::*;
use crate::cell::Cell;
use crate::layout::{gather, lemma_rowmajor};
use crate::rotate::{norm_shift, rotate, rotate_shifts, reverse, spec_reverse, spec_rotate, wrap_add};
use crate::shape::{lemma_prod_nonneg, nonneg, prod};
use crate::types::{AplResult, ErrorCode};
use crate::value::{all_ints, int_vals, ValueP};

verus! {

/// The row-major ravel position of the coordinates `idx` in an array of
/// dimensions `dims`.
pub open spec fn ravel_offset(idx: Seq<i64>, dims: Seq<i64>) -> int
    decreases idx.len(),
{
    if idx.len() == 0 || dims.len() == 0 {
        0
    } else {
        ravel_offset(idx.drop_last(), dims.drop_last()) * dims.last() + idx.last()
    }
}

/// Every coordinate lies within its axis.
pub open spec fn in_bounds(idx: Seq<i64>, dims: Seq<i64>) -> bool {
    idx.len() == dims.len() && forall|i: int| 0 <= i < idx.len() ==> 0 <= #[trigger] idx[i] < dims[i]
}

/// Coordinates within their axes give a position within the ravel.
pub proof fn lemma_offset_bounds(idx: Seq<i64>, dims: Seq<i64>)
    requires
        in_bounds(idx, dims),
    ensures
        0 <= ravel_offset(idx, dims) < prod(dims),
    decreases idx.len(),
{
    if idx.len() > 0 {
        let i2 = idx.drop_last();
        let d2 = dims.drop_last();
        assert(in_bounds(i2, d2)) by {
            assert forall|i: int| 0 <= i < i2.len() implies 0 <= #[trigger] i2[i] < d2[i] by {
                assert(i2[i] == idx[i] && d2[i] == dims[i]);
            }
        }
        lemma_offset_bounds(i2, d2);
        let o = ravel_offset(i2, d2);
        let p = prod(d2);
        let l = dims.last() as int;
        let x = idx.last() as int;
        assert(0 <= o * l + x < p * l) by (nonlinear_arith)
            requires 0 <= o < p, 0 <= x < l;
    }
}

/// The outcome of `A⌷B`: the position of the selected element, or the error.
pub open spec fn squad_offset(a: ValueP, b: ValueP) -> Result<int, ErrorCode> {
    if a.dims().len() > 1 || a.ravel().len() != b.dims().len() {
        Err(ErrorCode::RankError)
    } else if !all_ints(a.ravel()) {
        Err(ErrorCode::DomainError)
    } else if !in_bounds(int_vals(a.ravel()), b.dims()) {
        Err(ErrorCode::IndexError)
    } else {
        Ok(ravel_offset(int_vals(a.ravel()), b.dims()))
    }
}

/// `A⌷B` — the element of B at coordinates A (0-based), as a scalar.
pub fn squad(a: &ValueP, b: &ValueP) -> (r: AplResult<ValueP>)
    ensures
        squad_offset(*a, *b) matches Err(e) ==> r == Err::<ValueP, ErrorCode>(e),
        squad_offset(*a, *b) matches Ok(off) ==> (r matches Ok(z) && z.dims() == Seq::<i64>::empty()
            && 0 <= off < b.ravel().len() && z.ravel() == seq![b.ravel()[off]]),
{
    b.lemma_wf();
    if a.rank() > 1 {
        return Err(ErrorCode::RankError);
    }
    let ac = a.cells();
    let rank = b.rank() as usize;
    if ac.len() != rank {
        return Err(ErrorCode::RankError);
    }
    let indices = match crate::value::int_values(ac) {
        Ok(v) => v,
        Err(e) => { return Err(e); }
    };
    let ghost d = b.dims();
    let mut i: usize = 0;
    while i < rank
        invariant
            i <= rank,
            rank == d.len(),
            d == b.dims(),
            d.len() <= 8,
            indices@.len() == rank,
            indices@ == int_vals(a.ravel()),
            all_ints(a.ravel()),
            a.dims().len() <= 1,
            a.ravel().len() == d.len(),
            forall|j: int| 0 <= j < i ==> 0 <= #[trigger] indices@[j] < d[j],
        decreases rank - i,
    {
        let len = b.get_shape_item(i as i16);
        if indices[i] < 0 || indices[i] >= len {
            assert(!in_bounds(indices@, d));
            return Err(ErrorCode::IndexError);
        }
        i += 1;
    }
    assert(in_bounds(indices@, d));
    let cells = b.cells();
    let total = cells.len();
    let vol = b.element_count();
    proof {
        assert forall|t: int| 0 <= t < d.len() implies d[t] > 0 by {
            assert(0 <= indices@[t] < d[t]);
        }
        crate::shape::lemma_prod_pos(d);
    }
    // Horner evaluation of the row-major offset
    let mut off: i64 = 0;
    let mut k: usize = 0;
    while k < rank
        invariant
            k <= rank,
            rank == d.len(),
            d == b.dims(),
            d.len() <= 8,
            nonneg(d),
            indices@.len() == rank,
            in_bounds(indices@, d),
            b.ravel().len() == prod(d),
            total == b.ravel().len(),
            prod(d) >= 1,
            prod(d) <= i64::MAX,
            off >= 0,
            off as int == ravel_offset(indices@.take(k as int), d.take(k as int)),
        decreases rank - k,
    {
        proof {
            let ik = indices@.take(k as int + 1);
            let dk = d.take(k as int + 1);
            assert(ik.drop_last() =~= indices@.take(k as int));
            assert(dk.drop_last() =~= d.take(k as int));
            assert(in_bounds(ik, dk));
            lemma_offset_bounds(ik, dk);
            crate::shape::lemma_absprod_take(d, k as int + 1);
            assert(d =~= dk + d.skip(k as int + 1));
            crate::shape::lemma_prod_append(dk, d.skip(k as int + 1));
            assert(nonneg(dk));
            assert(nonneg(d.skip(k as int + 1)));
            lemma_prod_nonneg(dk);
            lemma_prod_nonneg(d.skip(k as int + 1));
            let sk = d.skip(k as int + 1);
            assert forall|t: int| 0 <= t < sk.len() implies sk[t] > 0 by {
                assert(sk[t] == d[k + 1 + t]);
                assert(0 <= indices@[k + 1 + t] < d[k + 1 + t]);
            }
            crate::shape::lemma_prod_pos(sk);
            let p1 = prod(dk);
            let p2 = prod(sk);
            assert(p1 <= p1 * p2) by (nonlinear_arith) requires p1 >= 0, p2 >= 1;
            assert(ravel_offset(ik, dk) == off * d[k as int] + indices@[k as int]);
            assert(0 <= indices@[k as int] < d[k as int]);
            assert(prod(d) == p1 * p2);
        }
        let dimk = b.get_shape_item(k as i16);
        off = off * dimk + indices[k];
        k += 1;
    }
    assert(indices@.take(rank as int) =~= indices@ && d.take(rank as int) =~= d);
    proof { lemma_offset_bounds(indices@, d); }
    Ok(ValueP::scalar_from(cells[off as usize].clone()))
}

/// The length of the first axis and the size of one item along it.
pub open spec fn first_and_inner(d: Seq<i64>) -> (int, int) {
    (d[0] as int, prod(d.skip(1)))
}

/// The ravel of `⊖B` for B of rank 2 or more.
pub open spec fn spec_reverse_first(b: ValueP) -> Seq<Cell> {
    let (m, inner) = first_and_inner(b.dims());
    Seq::new(b.ravel().len(), |i: int| b.ravel()[(m - 1 - i / inner) * inner + i % inner])
}

/// The ravel of `A⊖B` for B of rank 2 or more and shift `s`.
pub open spec fn spec_rotate_first(b: ValueP, s: int) -> Seq<Cell> {
    let (m, inner) = first_and_inner(b.dims());
    Seq::new(b.ravel().len(), |i: int| b.ravel()[((i / inner + s) % m) * inner + i % inner])
}

proof fn lemma_first_split(b: ValueP)
    requires
        b.dims().len() >= 1,
        nonneg(b.dims()),
        b.ravel().len() == prod(b.dims()),
        crate::shape::dims_ok(b.dims()),
    ensures
        b.ravel().len() == first_and_inner(b.dims()).0 * first_and_inner(b.dims()).1,
        first_and_inner(b.dims()).0 >= 0,
        first_and_inner(b.dims()).1 >= 0,
        first_and_inner(b.dims()).1 <= i64::MAX,
{
    let d = b.dims();
    crate::shape::lemma_prod_around(d, 0);
    assert(d.take(0) =~= Seq::<i64>::empty());
    assert(nonneg(d.skip(1)));
    lemma_prod_nonneg(d.skip(1));
    crate::shape::lemma_prod_bounded(d.skip(1));
}

/// `⊖B` — reverse along the first axis (for rank ≤ 1 the same as `⌽B`).
pub fn reverse_first(b: &ValueP) -> (r: AplResult<ValueP>)
    ensures
        b.dims().len() <= 1 ==> (r matches Ok(z) && z.dims() == b.dims() && z.ravel() == spec_reverse(*b)),
        b.dims().len() > 1 ==> (r matches Ok(z) && z.dims() == b.dims() && z.ravel() == spec_reverse_first(*b)),
{
    b.lemma_wf();
    let rank = b.rank();
    if rank <= 1 {
        return reverse(b);
    }
    proof { lemma_first_split(*b); }
    let cells = b.cells();
    let total = cells.len();
    let m = b.get_shape_item(0);
    let inner = crate::rotate::prod_range(b, 1, rank as usize);
    assert(b.dims().subrange(1, rank as int) =~= b.dims().skip(1));
    let mut idx: Vec<usize> = Vec::new();
    if total > 0 {
        proof {
            assert(m > 0 && inner > 0 && m <= total && inner <= total) by (nonlinear_arith)
                requires m >= 0, inner >= 0, m * inner == total, total > 0;
        }
        let mu = m as usize;
        let iu = inner as usize;
        let mut row: usize = 0;
        while row < mu
            invariant
                row <= mu,
                mu * iu == total, total == cells@.len(),
                mu as int == first_and_inner(b.dims()).0,
                iu as int == first_and_inner(b.dims()).1,
                iu > 0,
                idx@.len() == row * iu,
                forall|j: int| 0 <= j < idx@.len() ==> idx@[j] as int == (mu - 1 - j / (iu as int)) * iu + j % (iu as int),
                forall|j: int| 0 <= j < idx@.len() ==> idx@[j] < total,
            decreases mu - row,
        {
            let mut k: usize = 0;
            while k < iu
                invariant
                    row < mu, k <= iu,
                    mu * iu == total, total == cells@.len(),
                    iu > 0,
                    idx@.len() == row * iu + k,
                    forall|j: int| 0 <= j < idx@.len() ==> idx@[j] as int == (mu - 1 - j / (iu as int)) * iu + j % (iu as int),
                    forall|j: int| 0 <= j < idx@.len() ==> idx@[j] < total,
                decreases iu - k,
            {
                proof {
                    lemma_rowmajor(row as int, k as int, iu as int, mu as int);
                    lemma_rowmajor((mu - 1 - row) as int, k as int, iu as int, mu as int);
                }
                idx.push((mu - 1 - row) * iu + k);
                k += 1;
            }
            proof { assert((row + 1) * iu == row * iu + iu) by (nonlinear_arith); }
            row += 1;
        }
    }
    let out = gather(cells, idx.as_slice());
    assert(out@ =~= spec_reverse_first(*b));
    Ok(ValueP::from_ravel_like(b, out))
}

/// `A⊖B` — rotate along the first axis by the single element of A (for
/// rank ≤ 1 the same as `A⌽B`). A with more than one element, or a
/// non-integer, is a DOMAIN ERROR.
pub fn rotate_first(a: &ValueP, b: &ValueP) -> (r: AplResult<ValueP>)
    ensures
        b.dims().len() <= 1 ==> (rotate_shifts(*a, *b) matches Err(e) ==> r == Err::<ValueP, ErrorCode>(e)),
        b.dims().len() <= 1 ==> (rotate_shifts(*a, *b) matches Ok(sh) ==> (r matches Ok(z)
            && z.dims() == b.dims() && z.ravel() == spec_rotate(*b, sh))),
        b.dims().len() > 1 && !(a.ravel().len() == 1 && a.ravel()[0] is Int)
            ==> r == Err::<ValueP, ErrorCode>(ErrorCode::DomainError),
        b.dims().len() > 1 && a.ravel().len() == 1 && a.ravel()[0] is Int
            ==> (r matches Ok(z) && z.dims() == b.dims()
                && z.ravel() == spec_rotate_first(*b, a.ravel()[0]->Int_0 as int)),
{
    b.lemma_wf();
    let rank = b.rank();
    if rank <= 1 {
        return rotate(a, b);
    }
    let ac = a.cells();
    if ac.len() != 1 {
        return Err(ErrorCode::DomainError);
    }
    let shift = match ac[0].get_int_value() {
        Ok(s) => s,
        Err(_) => { return Err(ErrorCode::DomainError); }
    };
    proof { lemma_first_split(*b); }
    let cells = b.cells();
    let total = cells.len();
    let m = b.get_shape_item(0);
    let inner = crate::rotate::prod_range(b, 1, rank as usize);
    assert(b.dims().subrange(1, rank as int) =~= b.dims().skip(1));
    let mut idx: Vec<usize> = Vec::new();
    if total > 0 {
        proof {
            assert(m > 0 && inner > 0 && m <= total && inner <= total) by (nonlinear_arith)
                requires m >= 0, inner >= 0, m * inner == total, total > 0;
        }
        let mu = m as usize;
        let iu = inner as usize;
        let sm = norm_shift(shift, mu);
        let mut row: usize = 0;
        while row < mu
            invariant
                row <= mu,
                mu * iu == total, total == cells@.len(),
                mu as int == first_and_inner(b.dims()).0,
                iu as int == first_and_inner(b.dims()).1,
                iu > 0, sm < mu,
                sm as int == (shift as int) % (mu as int),
                idx@.len() == row * iu,
                forall|j: int| 0 <= j < idx@.len() ==> idx@[j] as int == ((j / (iu as int) + shift) % (mu as int)) * iu + j % (iu as int),
                forall|j: int| 0 <= j < idx@.len() ==> idx@[j] < total,
            decreases mu - row,
        {
            let src_r = wrap_add(sm, row, mu);
            proof {
                vstd::arithmetic::div_mod::lemma_add_mod_noop(shift as int, row as int, mu as int);
                vstd::arithmetic::div_mod::lemma_small_mod(row as nat, mu as nat);
            }
            let mut k: usize = 0;
            while k < iu
                invariant
                    row < mu, k <= iu,
                    mu * iu == total, total == cells@.len(),
                    iu > 0,
                    src_r < mu,
                    src_r as int == (row + shift) % (mu as int),
                    idx@.len() == row * iu + k,
                    forall|j: int| 0 <= j < idx@.len() ==> idx@[j] as int == ((j / (iu as int) + shift) % (mu as int)) * iu + j % (iu as int),
                    forall|j: int| 0 <= j < idx@.len() ==> idx@[j] < total,
                decreases iu - k,
            {
                proof {
                    lemma_rowmajor(row as int, k as int, iu as int, mu as int);
                    lemma_rowmajor(src_r as int, k as int, iu as int, mu as int);
                }
                idx.push(src_r * iu + k);
                k += 1;
            }
            proof { assert((row + 1) * iu == row * iu + iu) by (nonlinear_arith); }
            row += 1;
        }
    }
    let out = gather(cells, idx.as_slice());
    assert(out@ =~= spec_rotate_first(*b, shift as int));
    Ok(ValueP::from_ravel_like(b, out))
}

} // verus!
