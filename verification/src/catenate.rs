//! Structural functions on whole values: tally `≢B`, ravel `,B` and
//! catenate `A,B` along the last axis.

use vstd::prelude::*;
use crate::cell::Cell;
use crate::shape::{absprod, prod, Shape};
use crate::types::{AplResult, ErrorCode, MAX_RANK};
use crate::value::ValueP;

verus! {

/// `≢B`: the length of the first axis of B, 1 for a scalar.
pub fn tally(b: &ValueP) -> (r: AplResult<ValueP>)
    ensures
        r matches Ok(v) && v.dims() == Seq::<i64>::empty()
            && v.ravel() == seq![Cell::Int(if b.dims().len() == 0 { 1 } else { b.dims()[0] })],
{
    let n: i64 = if b.rank() == 0 { 1 } else { b.get_shape_item(0) };
    Ok(ValueP::scalar_from(Cell::Int(n)))
}

/// `,B`: the cells of B as a vector.
pub fn ravel(b: &ValueP) -> (r: AplResult<ValueP>)
    ensures
        r matches Ok(v) && v.dims() == seq![b.ravel().len() as i64] && v.ravel() == b.ravel(),
{
    b.lemma_wf();
    let cells = crate::value::clone_cells(b.cells());
    let n = cells.len() as i64;
    ValueP::from_parts(Shape::vector(n), cells)
}

/// The dimensions of `⍪B`: a scalar is 1 by 1, a vector one column, and
/// a higher rank array its first axis by the product of the others.
pub open spec fn table_dims(d: Seq<i64>) -> Seq<i64> {
    if d.len() == 0 {
        seq![1i64, 1i64]
    } else if d.len() == 1 {
        seq![d[0], 1i64]
    } else {
        seq![d[0], prod(d.drop_first()) as i64]
    }
}

/// `⍪B`: B as a matrix, its cells unchanged.
pub fn table(b: &ValueP) -> (r: AplResult<ValueP>)
    ensures
        r matches Ok(v) && v.dims() == table_dims(b.dims()) && v.ravel() == b.ravel(),
{
    b.lemma_wf();
    let d = b.dim_list();
    let rank = d.len();
    let cells = crate::value::clone_cells(b.cells());
    let mut dims: Vec<i64> = Vec::new();
    if rank == 0 {
        dims.push(1);
        dims.push(1);
    } else if rank == 1 {
        dims.push(d[0]);
        dims.push(1);
    } else {
        let rest = crate::take_drop::suffix_prod_of(d.as_slice(), 1);
        dims.push(d[0]);
        dims.push(rest);
    }
    proof {
        let dd = b.dims();
        if rank == 0 {
            assert(dims@ =~= seq![1i64].push(1i64));
            crate::shape::lemma_absprod_push(seq![1i64], 1i64);
            lemma_single(1i64);
        } else if rank == 1 {
            assert(dims@ =~= seq![dd[0]].push(1i64));
            crate::shape::lemma_absprod_push(seq![dd[0]], 1i64);
            lemma_single(dd[0]);
            assert(seq![dd[0]] =~= dd);
        } else {
            assert(dd.skip(1) =~= dd.drop_first());
            assert(dims@ =~= seq![dd[0], prod(dd.drop_first()) as i64]);
            crate::take_drop::lemma_table_weight(dd);
        }
    }
    let shape = Shape::from_dims(dims.as_slice());
    match shape {
        Ok(s) => {
            proof { use_type_invariant(s); }
            match ValueP::from_parts(s, cells) {
                Ok(v) => Ok(v),
                Err(e) => Err(e),
            }
        },
        Err(e) => Err(e),
    }
}

proof fn lemma_single(x: i64)
    ensures
        prod(seq![x]) == x,
        absprod(seq![x]) == crate::shape::weight(x),
{
    reveal_with_fuel(prod, 2);
    reveal_with_fuel(absprod, 2);
    assert(seq![x].drop_last() =~= Seq::<i64>::empty());
}

/// How `A,B` lines up its arguments: the leading dimensions of the result
/// and the lengths of the last axes of A and B (a scalar or an argument of
/// rank one less than the other has a last axis of length 1), or the error:
/// RANK ERROR for ranks that differ by more than one (neither a scalar),
/// LENGTH ERROR for leading dimensions that differ.
pub open spec fn cat_plan(a: Seq<i64>, b: Seq<i64>) -> Result<(Seq<i64>, int, int), ErrorCode> {
    let ra = a.len();
    let rb = b.len();
    if ra == 0 && rb == 0 {
        Ok((Seq::empty(), 1, 1))
    } else if ra == 0 {
        Ok((b.drop_last(), 1, b.last() as int))
    } else if rb == 0 {
        Ok((a.drop_last(), a.last() as int, 1))
    } else if ra == rb {
        if a.drop_last() == b.drop_last() {
            Ok((a.drop_last(), a.last() as int, b.last() as int))
        } else {
            Err(ErrorCode::LengthError)
        }
    } else if ra == rb + 1 {
        if a.drop_last() == b { Ok((b, a.last() as int, 1)) } else { Err(ErrorCode::LengthError) }
    } else if rb == ra + 1 {
        if b.drop_last() == a { Ok((a, 1, b.last() as int)) } else { Err(ErrorCode::LengthError) }
    } else {
        Err(ErrorCode::RankError)
    }
}

/// The cell of a side of `A,B` at row `i`, column `j`, with rows of
/// length `n`: a scalar side repeats its only cell.
pub open spec fn side_cell(v: ValueP, i: int, j: int, n: int) -> Cell {
    if v.dims().len() == 0 { v.ravel()[0] } else { v.ravel()[i * n + j] }
}

/// The ravel of `A,B` for rows of lengths `la` and `lb`: each row of A
/// followed by the same row of B.
pub open spec fn cat_cells(a: ValueP, b: ValueP, rows: int, la: int, lb: int) -> Seq<Cell> {
    Seq::new((rows * (la + lb)) as nat, |p: int| {
        let i = p / (la + lb);
        let j = p % (la + lb);
        if j < la { side_cell(a, i, j, la) } else { side_cell(b, i, j - la, lb) }
    })
}

/// `A,B`: join A and B along the last axis. Scalars extend to a column of
/// the other's leading shape; an argument of rank one less than the other
/// joins as a single column. A result whose shape does not fit is a LIMIT
/// ERROR.
pub fn catenate(a: &ValueP, b: &ValueP) -> (r: AplResult<ValueP>)
    ensures
        cat_plan(a.dims(), b.dims()) matches Err(e) ==> r == Err::<ValueP, ErrorCode>(e),
        cat_plan(a.dims(), b.dims()) matches Ok(p) ==> ({
            let dims = p.0.push((p.1 + p.2) as i64);
            if p.0.len() + 1 > MAX_RANK || p.1 + p.2 > i64::MAX || absprod(dims) > i64::MAX {
                r == Err::<ValueP, ErrorCode>(ErrorCode::LimitError)
            } else {
                r matches Ok(v) && v.dims() == dims
                    && v.ravel() == cat_cells(*a, *b, prod(p.0), p.1, p.2)
            }
        }),
{
    a.lemma_wf();
    b.lemma_wf();
    let ad = a.dim_list();
    let bd = b.dim_list();
    let ra = ad.len();
    let rb = bd.len();
    let mut lead: Vec<i64> = Vec::new();
    let la: i64;
    let lb: i64;
    if ra == 0 && rb == 0 {
        la = 1;
        lb = 1;
    } else if ra == 0 {
        lead = prefix(&bd, rb - 1);
        la = 1;
        lb = bd[rb - 1];
    } else if rb == 0 {
        lead = prefix(&ad, ra - 1);
        la = ad[ra - 1];
        lb = 1;
    } else if ra == rb {
        let pa = prefix(&ad, ra - 1);
        let pb = prefix(&bd, rb - 1);
        if !crate::rank::same_dims(pa.as_slice(), pb.as_slice()) {
            return Err(ErrorCode::LengthError);
        }
        lead = pa;
        la = ad[ra - 1];
        lb = bd[rb - 1];
    } else if ra == rb + 1 {
        let pa = prefix(&ad, ra - 1);
        if !crate::rank::same_dims(pa.as_slice(), bd.as_slice()) {
            return Err(ErrorCode::LengthError);
        }
        lead = pa;
        la = ad[ra - 1];
        lb = 1;
    } else if rb == ra + 1 {
        let pb = prefix(&bd, rb - 1);
        if !crate::rank::same_dims(pb.as_slice(), ad.as_slice()) {
            return Err(ErrorCode::LengthError);
        }
        lead = pb;
        la = 1;
        lb = bd[rb - 1];
    } else {
        return Err(ErrorCode::RankError);
    }
    let ghost plan = cat_plan(a.dims(), b.dims());
    proof {
        assert(plan == Ok::<(Seq<i64>, int, int), ErrorCode>((lead@, la as int, lb as int)));
    }
    if lead.len() + 1 > MAX_RANK {
        return Err(ErrorCode::LimitError);
    }
    let w = match la.checked_add(lb) {
        Some(w) => w,
        None => { return Err(ErrorCode::LimitError); },
    };
    let mut dims = lead.clone();
    dims.push(w);
    if !crate::take_drop::weight_fits(dims.as_slice()) {
        return Err(ErrorCode::LimitError);
    }
    proof {
        assert(dims@ == lead@.push(w));
        lemma_lead_nonneg(a.dims(), b.dims(), lead@);
        crate::take_drop::lemma_prod_le_absprod(lead@);
        assert(absprod(lead@) <= absprod(dims@)) by {
            crate::shape::lemma_absprod_push(lead@, w);
        }
    }
    let rows = crate::take_drop::prod_of(lead.as_slice());
    proof {
        let ad_ = a.dims();
        let bd_ = b.dims();
        if ad_.len() > 0 {
            if ad_.len() == lead@.len() + 1 {
                assert(ad_ =~= ad_.drop_last().push(ad_.last()));
                assert(ad_.drop_last() == lead@);
                assert(ad_.last() == la);
                crate::shape::lemma_absprod_push(lead@, la);
                assert(a.ravel().len() == prod(ad_));
                assert(prod(ad_) == prod(lead@) * la);
            } else {
                assert(ad_ == lead@);
                assert(la == 1);
            }
            assert(a.ravel().len() == rows * la);
        }
        if bd_.len() > 0 {
            if bd_.len() == lead@.len() + 1 {
                assert(bd_ =~= bd_.drop_last().push(bd_.last()));
                assert(bd_.drop_last() == lead@);
                crate::shape::lemma_absprod_push(lead@, lb);
            } else {
                assert(bd_ == lead@);
                assert(lb == 1);
            }
        }
    }
    let ac = a.cells();
    let bc = b.cells();
    let mut out: Vec<Cell> = Vec::new();
    let mut i: i64 = 0;
    while i < rows
        invariant
            0 <= i <= rows,
            rows as int == prod(lead@),
            la >= 0, lb >= 0, la + lb == w,
            ac@ == a.ravel(), bc@ == b.ravel(),
            ra as int == a.dims().len(), rb as int == b.dims().len(),
            a.ravel().len() <= i64::MAX, b.ravel().len() <= i64::MAX,
            a.dims().len() > 0 ==> a.ravel().len() == rows * la,
            b.dims().len() > 0 ==> b.ravel().len() == rows * lb,
            a.dims().len() == 0 ==> a.ravel().len() == 1,
            b.dims().len() == 0 ==> b.ravel().len() == 1,
            out@ == cat_cells(*a, *b, rows as int, la as int, lb as int).take(i * w),
        decreases rows - i,
    {
        let mut j: i64 = 0;
        while j < w
            invariant
                0 <= i < rows,
                0 <= j <= w,
                rows as int == prod(lead@),
                la >= 0, lb >= 0, la + lb == w,
                ac@ == a.ravel(), bc@ == b.ravel(),
                ra as int == a.dims().len(), rb as int == b.dims().len(),
                a.ravel().len() <= i64::MAX, b.ravel().len() <= i64::MAX,
                a.dims().len() > 0 ==> a.ravel().len() == rows * la,
                b.dims().len() > 0 ==> b.ravel().len() == rows * lb,
                a.dims().len() == 0 ==> a.ravel().len() == 1,
                b.dims().len() == 0 ==> b.ravel().len() == 1,
                out@ == cat_cells(*a, *b, rows as int, la as int, lb as int).take(i * w + j),
            decreases w - j,
        {
            proof {
                crate::layout::lemma_rowmajor(i as int, j as int, w as int, rows as int);
            }
            let c = if j < la {
                if ra == 0 { ac[0].clone() } else {
                    proof { crate::layout::lemma_rowmajor(i as int, j as int, la as int, rows as int); }
                    ac[(i * la + j) as usize].clone()
                }
            } else {
                if rb == 0 { bc[0].clone() } else {
                    proof { crate::layout::lemma_rowmajor(i as int, (j - la) as int, lb as int, rows as int); }
                    bc[(i * lb + (j - la)) as usize].clone()
                }
            };
            out.push(c);
            proof {
                assert(out@ =~= cat_cells(*a, *b, rows as int, la as int, lb as int).take(i * w + j + 1));
            }
            j += 1;
        }
        proof { assert((i + 1) * w == i * w + w) by (nonlinear_arith); }
        i += 1;
    }
    proof {
        assert(out@ =~= cat_cells(*a, *b, rows as int, la as int, lb as int));
    }
    let shape = Shape::from_dims(dims.as_slice());
    match shape {
        Ok(s) => {
            proof { use_type_invariant(s); crate::shape::lemma_absprod_push(lead@, w); }
            match ValueP::from_parts(s, out) {
                Ok(v) => Ok(v),
                Err(e) => Err(e),
            }
        },
        Err(e) => Err(e),
    }
}

/// The first `n` dimensions of `d`.
fn prefix(d: &Vec<i64>, n: usize) -> (r: Vec<i64>)
    requires
        n <= d@.len(),
    ensures
        r@ == d@.take(n as int),
{
    let mut out: Vec<i64> = Vec::new();
    let mut i: usize = 0;
    while i < n
        invariant
            i <= n <= d@.len(),
            out@ == d@.take(i as int),
        decreases n - i,
    {
        out.push(d[i]);
        proof { assert(out@ =~= d@.take(i as int + 1)); }
        i += 1;
    }
    out
}

proof fn lemma_lead_nonneg(a: Seq<i64>, b: Seq<i64>, lead: Seq<i64>)
    requires
        crate::shape::nonneg(a),
        crate::shape::nonneg(b),
        cat_plan(a, b) matches Ok(p) && p.0 == lead,
    ensures
        crate::shape::nonneg(lead),
{
}

} // verus!
